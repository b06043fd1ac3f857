//! From the body of an image to its pixels.
//!
//! The body is read line by line. A line is one row for each plane and, where the
//! image has a mask, one row more, which is read and dropped. The pixel values of a
//! line become colors through the color map, or stand for colors themselves where
//! the image has no map. A row that cannot be read ends the reading with its own
//! error: missing data where the body is too short, and what the decompression
//! failed with where a compressed row does not expand to a row.
use vstd::prelude::*;
use vstd::string::*;

use crate::iff::IffChunk;
use crate::planes::{
    lemma_pixel_rows, next_row, pixel_index, pixel_word, row_stride, set_plane_bits,
    set_plane_bits_deep, RowIter,
};
use crate::resolve::{
    direct, halfbrite, ham, ham_select, lemma_direct_pixels, lemma_halfbrite_len, lemma_ham_len,
    push_row_bytes, push_row_bytes_halfbrite, push_row_bytes_ham, Resolved,
};
use crate::{
    ColorMap, DisplayMode, IlbmError, IlbmErrorView, IlbmImage, IlbmImageView, Masking, RgbValue,
};

verus! {

/// What the header says of how the body is laid out.
pub struct Layout {
    pub width: usize,
    pub planes: usize,
    pub masked: bool,
    pub compressed: bool,
}

impl Layout {
    /// The number of rows that the body holds for one line of the image.
    pub open spec fn rows_per_line(self) -> nat {
        if self.masked {
            (self.planes + 1) as nat
        } else {
            self.planes as nat
        }
    }
}

/// The layout of the body of `image`.
pub open spec fn layout_of(image: IlbmImageView) -> Layout {
    Layout {
        width: image.size.0,
        planes: image.planes,
        masked: image.masking == Masking::HasMask,
        compressed: image.compression,
    }
}

/// The first `count` rows read from the front of `data`, and the data behind them, or
/// the error of the first row that cannot be read.
pub open spec fn next_rows(data: Seq<u8>, stride: nat, compressed: bool, count: nat) -> Result<
    (Seq<Seq<u8>>, Seq<u8>),
    IlbmErrorView,
>
    decreases count,
{
    if count == 0 {
        Ok((Seq::empty(), data))
    } else {
        match next_rows(data, stride, compressed, (count - 1) as nat) {
            Err(e) => Err(e),
            Ok((rows, rest)) => match next_row(rest, stride, compressed) {
                Err(e) => Err(e),
                Ok((row, behind)) => Ok((rows.push(row), behind)),
            },
        }
    }
}

/// Where the first `count` rows cannot be read, more rows fail with the same error:
/// that of the first row that cannot be read.
pub proof fn lemma_rows_missing(
    data: Seq<u8>,
    stride: nat,
    compressed: bool,
    count: nat,
    more: nat,
)
    requires
        count <= more,
    ensures
        next_rows(data, stride, compressed, count) is Err ==> next_rows(
            data,
            stride,
            compressed,
            more,
        ) == next_rows(data, stride, compressed, count),
    decreases more,
{
    if count < more {
        lemma_rows_missing(data, stride, compressed, count, (more - 1) as nat);
    }
}

/// The pixel values of one line of an image with a color map.
pub open spec fn index_row(rows: Seq<Seq<u8>>, width: nat, planes: nat) -> Seq<u8> {
    Seq::new(width, |x: int| pixel_index(rows, x, planes))
}

/// The colors of one line, by the way that the display mode selects: hold-and-modify
/// if the mode asks for it, else half-brightness if the mode asks for that, else
/// plain lookup.
pub open spec fn resolved_row(
    values: Seq<u8>,
    mode: DisplayMode,
    planes: usize,
    map: Seq<RgbValue>,
) -> Resolved {
    if mode.ham_bit() {
        ham(values, planes, map)
    } else if mode.halfbrite_bit() {
        halfbrite(values, map)
    } else {
        direct(values, map)
    }
}

/// `done`, followed by the bytes that `rest` holds if it holds any.
pub open spec fn bytes_before(done: Seq<u8>, rest: Result<Seq<u8>, IlbmErrorView>) -> Result<
    Seq<u8>,
    IlbmErrorView,
> {
    match rest {
        Ok(more) => Ok(done + more),
        Err(e) => Err(e),
    }
}

/// The pixels of the first `lines` lines of a body with a color map. A line of which
/// a row cannot be read fails with the error of that row.
pub open spec fn mapped_lines(
    data: Seq<u8>,
    layout: Layout,
    mode: DisplayMode,
    map: Seq<RgbValue>,
    lines: nat,
) -> Result<Seq<u8>, IlbmErrorView>
    decreases lines,
{
    if lines == 0 {
        Ok(Seq::empty())
    } else {
        match next_rows(
            data,
            row_stride(layout.width as nat),
            layout.compressed,
            layout.rows_per_line(),
        ) {
            Err(e) => Err(e),
            Ok((rows, rest)) => {
                let resolved = resolved_row(
                    index_row(rows, layout.width as nat, layout.planes as nat),
                    mode,
                    layout.planes,
                    map,
                );
                match resolved.failure {
                    Some(e) => Err(e),
                    None => bytes_before(
                        resolved.bytes,
                        mapped_lines(rest, layout, mode, map, (lines - 1) as nat),
                    ),
                }
            },
        }
    }
}

/// The pixels of the image `image` with the color map `map`, whose body is `data`.
/// Pixel values index the map, so there are no more than 8 planes; in
/// hold-and-modify mode two of the planes select, so there are 2 at least.
pub open spec fn mapped_body(
    data: Seq<u8>,
    image: IlbmImageView,
    mode: DisplayMode,
    map: Seq<RgbValue>,
) -> Result<Seq<u8>, IlbmErrorView> {
    if image.planes > 8 {
        Err(IlbmErrorView::NotSupported("Color map with more than 8 planes"@))
    } else if mode.ham_bit() && image.planes < 2 {
        Err(IlbmErrorView::NotSupported("Hold and modify with less than 2 planes"@))
    } else {
        mapped_lines(data, layout_of(image), mode, map, image.size.1 as nat)
    }
}

/// Whether the outcome `r` of reading a body into an image, which was `before` and is
/// `after`, is the outcome `body`: an image that has the pixels and is otherwise as
/// before, or the error and the image as before.
pub open spec fn body_read(
    r: Result<(), IlbmError>,
    before: IlbmImageView,
    after: IlbmImageView,
    body: Result<Seq<u8>, IlbmErrorView>,
) -> bool {
    match body {
        Ok(pixels) => r is Ok && after == (IlbmImageView { pixels, ..before }),
        Err(e) => r matches Err(err) && err@ == e && after == before,
    }
}

/// The pixel values of an image with `planes` planes have no bits above those.
pub proof fn lemma_pixel_index_bits(rows: Seq<Seq<u8>>, x: int, planes: nat)
    requires
        planes <= 8,
    ensures
        (pixel_index(rows, x, planes) as u32) >> (planes as u32) == 0,
    decreases planes,
{
    if planes == 0 {
        assert((0u8 as u32) >> 0u32 == 0) by (bit_vector);
    } else {
        lemma_pixel_index_bits(rows, x, (planes - 1) as nat);
        let below = pixel_index(rows, x, (planes - 1) as nat);
        let s = (planes - 1) as u32;
        let t = (planes - 1) as u8;
        assert(((below | (1u8 << t)) as u32) >> ((s + 1) as u32) == 0 && (below as u32) >> ((s
            + 1) as u32) == 0) by (bit_vector)
            requires
                s < 8,
                t == s,
                (below as u32) >> s == 0,
        ;
    }
}

/// Reads the body of an image that has a color map: pixel values are indices into
/// the map.
pub fn read_body_with_cmap(
    chunk: IffChunk,
    mode: DisplayMode,
    color_map: ColorMap,
    image: &mut IlbmImage,
) -> (r: Result<(), IlbmError>)
    requires
        old(image).size.0 <= usize::MAX - 15,
    ensures
        body_read(
            r,
            old(image)@,
            final(image)@,
            mapped_body(chunk@.data, old(image)@, mode, color_map.colors@),
        ),
{
    // A pixel value is an index of one byte, so that more than 8 planes have no
    // meaning here.
    if image.planes > 8 {
        return Err(
            IlbmError::NotSupported(String::from_str("Color map with more than 8 planes")),
        );
    }
    if mode.is_ham() && image.planes < 2 {
        return Err(
            IlbmError::NotSupported(String::from_str("Hold and modify with less than 2 planes")),
        );
    }
    let width: usize = image.size.0;
    let height: usize = image.size.1;
    let planes: usize = image.planes;
    let masked: bool = image.masking == Masking::HasMask;

    // Bytes in a row, always an even number.
    let row_stride: usize = ((width + 15) / 16) * 2;

    let mut rows = RowIter::new(chunk.data(), row_stride, image.compression);
    let mut pixels: Vec<u8> = Vec::new();

    let ghost layout = layout_of(image@);
    let ghost map = color_map.colors@;
    let ghost whole = mapped_lines(chunk@.data, layout, mode, map, height as nat);
    let mut line: usize = 0;
    while line < height
        invariant
            line <= height,
            *image == *old(image),
            width == layout.width,
            planes == layout.planes,
            planes <= 8,
            mode.ham_bit() ==> planes >= 2,
            masked == layout.masked,
            map == color_map.colors@,
            row_stride == self::row_stride(width as nat),
            width <= row_stride * 8 <= usize::MAX,
            rows@.width == row_stride,
            rows@.compressed == layout.compressed,
            whole == bytes_before(
                pixels@,
                mapped_lines(rows@.data, layout, mode, map, (height - line) as nat),
            ),
            whole == mapped_body(chunk@.data, old(image)@, mode, color_map.colors@),
        decreases height - line,
    {
        let ghost line_data = rows@.data;
        let ghost stride = row_stride as nat;
        // The pixel values of this line, put together plane by plane.
        let mut row: Vec<u8> = vec![0u8; width];

        // Each plane gives one bit: this one.
        let mut plane_bit: u8 = 1;
        let mut plane: usize = 0;
        let ghost mut read: Seq<Seq<u8>> = Seq::empty();
        assert(1u8 == 1u8 << 0u8) by (bit_vector);
        while plane < planes
            invariant
                plane <= planes <= 8,
                width <= row_stride * 8 <= usize::MAX,
                stride == row_stride,
                row_stride == self::row_stride(width as nat),
                rows@.width == row_stride,
                rows@.compressed == layout.compressed,
                planes == layout.planes,
                masked == layout.masked,
                *image == *old(image),
                whole == mapped_body(chunk@.data, old(image)@, mode, color_map.colors@),
                whole == bytes_before(
                    pixels@,
                    mapped_lines(line_data, layout, mode, map, (height - line) as nat),
                ),
                line < height,
                layout.width == width,
                read.len() == plane,
                next_rows(line_data, stride, layout.compressed, plane as nat) == Ok::<
                    (Seq<Seq<u8>>, Seq<u8>),
                    IlbmErrorView,
                >((read, rows@.data)),
                row@.len() == width,
                forall|x: int|
                    0 <= x < width ==> #[trigger] row@[x] == pixel_index(read, x, plane as nat),
                plane < 8 ==> plane_bit == 1u8 << (plane as u8),
            decreases planes - plane,
        {
            proof {
                lemma_rows_missing(
                    line_data,
                    stride,
                    layout.compressed,
                    (plane + 1) as nat,
                    layout.rows_per_line(),
                );
            }
            let plane_data: Vec<u8> = rows.read_row()?;
            let ghost earlier = read;
            set_plane_bits(&mut row, &plane_data, plane_bit, width);
            proof {
                read = read.push(plane_data@);
                assert forall|x: int| 0 <= x < width implies #[trigger] row@[x] == pixel_index(
                    read,
                    x,
                    (plane + 1) as nat,
                ) by {
                    lemma_pixel_rows(earlier, read, x, plane as nat);
                }
                let shift = plane as u8;
                if plane < 7 {
                    assert((plane_bit << 1u8) == 1u8 << ((shift + 1) as u8)) by (bit_vector)
                        requires
                            shift < 7,
                            plane_bit == 1u8 << shift,
                    ;
                }
            }
            // Planes start at the low bit.
            plane_bit = plane_bit << 1;
            plane = plane + 1;
        }

        let ghost mut line_rows: Seq<Seq<u8>> = read;
        if masked {
            // The mask is read to keep step with the data, and is not used.
            let mask: Vec<u8> = rows.read_row()?;
            proof {
                line_rows = read.push(mask@);
            }
        }
        let ghost values = index_row(line_rows, width as nat, planes as nat);
        assert(row@ == values) by {
            assert forall|x: int| 0 <= x < width implies row@[x] == values[x] by {
                lemma_pixel_rows(read, line_rows, x, planes as nat);
            }
        }
        let ghost so_far = pixels@;
        let ghost resolved = resolved_row(values, mode, planes, map);

        if mode.is_ham() {
            proof {
                assert forall|i: int| 0 <= i < row@.len() implies ham_select(
                    #[trigger] row@[i],
                    planes,
                ) <= 3 by {
                    lemma_pixel_index_bits(line_rows, i, planes as nat);
                    let v = row@[i] as u32;
                    let s = planes as u32;
                    assert(v >> ((s - 2) as u32) <= 3) by (bit_vector)
                        requires
                            2 <= s <= 8,
                            v >> s == 0,
                    ;
                }
            }
            push_row_bytes_ham(row, planes, &color_map, &mut pixels)?;
        } else if mode.is_halfbrite() {
            push_row_bytes_halfbrite(row, &color_map, &mut pixels)?;
        } else {
            push_row_bytes(row, &color_map, &mut pixels)?;
        }
        proof {
            let behind = mapped_lines(rows@.data, layout, mode, map, (height - line - 1) as nat);
            match behind {
                Ok(more) => {
                    assert(so_far + (resolved.bytes + more) == (so_far + resolved.bytes) + more);
                },
                Err(_) => {},
            }
        }
        line = line + 1;
    }
    image.pixels = pixels;
    Ok(())
}

/// The three bytes that a pixel value of an image without a color map stands for:
/// its lowest byte is red, the next green, the next blue. The highest byte, which
/// would be the opacity, is dropped.
pub open spec fn word_bytes(word: u32) -> Seq<u8> {
    seq![(word & 0xff) as u8, ((word >> 8) & 0xff) as u8, ((word >> 16) & 0xff) as u8]
}

/// The bytes of the first `width` pixels of one line of an image without a color map.
pub open spec fn deep_row(rows: Seq<Seq<u8>>, planes: nat, width: nat) -> Seq<u8>
    decreases width,
{
    if width == 0 {
        Seq::empty()
    } else {
        deep_row(rows, planes, (width - 1) as nat) + word_bytes(
            pixel_word(rows, width - 1, planes),
        )
    }
}

/// The pixels of the first `lines` lines of a body without a color map. A line of
/// which a row cannot be read fails with the error of that row.
pub open spec fn deep_lines(data: Seq<u8>, layout: Layout, lines: nat) -> Result<
    Seq<u8>,
    IlbmErrorView,
>
    decreases lines,
{
    if lines == 0 {
        Ok(Seq::empty())
    } else {
        match next_rows(
            data,
            row_stride(layout.width as nat),
            layout.compressed,
            layout.rows_per_line(),
        ) {
            Err(e) => Err(e),
            Ok((rows, rest)) => bytes_before(
                deep_row(rows, layout.planes as nat, layout.width as nat),
                deep_lines(rest, layout, (lines - 1) as nat),
            ),
        }
    }
}

/// The pixels of the image `image` without a color map, whose body is `data`. A pixel
/// value has 32 bits, so there are no more than 32 planes.
pub open spec fn deep_body(data: Seq<u8>, image: IlbmImageView) -> Result<Seq<u8>, IlbmErrorView> {
    if image.planes > 32 {
        Err(IlbmErrorView::NotSupported("Too many plans for deep color!"@))
    } else {
        deep_lines(data, layout_of(image), image.size.1 as nat)
    }
}

/// Reads the body of an image that has no color map: pixel values are colors.
pub fn read_body_no_map(chunk: IffChunk, image: &mut IlbmImage) -> (r: Result<(), IlbmError>)
    requires
        old(image).size.0 <= usize::MAX - 15,
    ensures
        body_read(r, old(image)@, final(image)@, deep_body(chunk@.data, old(image)@)),
{
    // The planes of a pixel are gathered in 32 bits, so that more than 32 planes
    // have no meaning here.
    if image.planes > 32 {
        return Err(IlbmError::NotSupported(String::from_str("Too many plans for deep color!")));
    }
    let width: usize = image.size.0;
    let height: usize = image.size.1;
    let planes: usize = image.planes;
    let masked: bool = image.masking == Masking::HasMask;

    // Bytes in a row, always an even number.
    let row_stride: usize = ((width + 15) / 16) * 2;

    let mut rows = RowIter::new(chunk.data(), row_stride, image.compression);
    let mut pixels: Vec<u8> = Vec::new();

    let ghost layout = layout_of(image@);
    let ghost whole = deep_lines(chunk@.data, layout, height as nat);
    let mut line: usize = 0;
    while line < height
        invariant
            line <= height,
            *image == *old(image),
            width == layout.width,
            planes == layout.planes,
            planes <= 32,
            masked == layout.masked,
            row_stride == self::row_stride(width as nat),
            width <= row_stride * 8 <= usize::MAX,
            rows@.width == row_stride,
            rows@.compressed == layout.compressed,
            whole == bytes_before(
                pixels@,
                deep_lines(rows@.data, layout, (height - line) as nat),
            ),
            whole == deep_body(chunk@.data, old(image)@),
        decreases height - line,
    {
        let ghost line_data = rows@.data;
        let ghost stride = row_stride as nat;
        // The pixel values of this line, put together plane by plane.
        let mut row: Vec<u32> = vec![0u32; width];

        // Each plane gives one bit: this one.
        let mut plane_bit: u32 = 1;
        let mut plane: usize = 0;
        let ghost mut read: Seq<Seq<u8>> = Seq::empty();
        assert(1u32 == 1u32 << 0u32) by (bit_vector);
        while plane < planes
            invariant
                plane <= planes <= 32,
                width <= row_stride * 8 <= usize::MAX,
                stride == row_stride,
                row_stride == self::row_stride(width as nat),
                rows@.width == row_stride,
                rows@.compressed == layout.compressed,
                planes == layout.planes,
                masked == layout.masked,
                *image == *old(image),
                whole == deep_body(chunk@.data, old(image)@),
                whole == bytes_before(
                    pixels@,
                    deep_lines(line_data, layout, (height - line) as nat),
                ),
                line < height,
                layout.width == width,
                read.len() == plane,
                next_rows(line_data, stride, layout.compressed, plane as nat) == Ok::<
                    (Seq<Seq<u8>>, Seq<u8>),
                    IlbmErrorView,
                >((read, rows@.data)),
                row@.len() == width,
                forall|x: int|
                    0 <= x < width ==> #[trigger] row@[x] == pixel_word(read, x, plane as nat),
                plane < 32 ==> plane_bit == 1u32 << (plane as u32),
            decreases planes - plane,
        {
            proof {
                lemma_rows_missing(
                    line_data,
                    stride,
                    layout.compressed,
                    (plane + 1) as nat,
                    layout.rows_per_line(),
                );
            }
            let plane_data: Vec<u8> = rows.read_row()?;
            let ghost earlier = read;
            set_plane_bits_deep(&mut row, &plane_data, plane_bit, width);
            proof {
                read = read.push(plane_data@);
                assert forall|x: int| 0 <= x < width implies #[trigger] row@[x] == pixel_word(
                    read,
                    x,
                    (plane + 1) as nat,
                ) by {
                    lemma_pixel_rows(earlier, read, x, plane as nat);
                }
                let shift = plane as u32;
                if plane < 31 {
                    assert((plane_bit << 1u32) == 1u32 << ((shift + 1) as u32)) by (bit_vector)
                        requires
                            shift < 31,
                            plane_bit == 1u32 << shift,
                    ;
                }
            }
            // Planes start at the low bit.
            plane_bit = plane_bit << 1;
            plane = plane + 1;
        }

        let ghost mut line_rows: Seq<Seq<u8>> = read;
        if masked {
            // The mask is read to keep step with the data, and is not used.
            let mask: Vec<u8> = rows.read_row()?;
            proof {
                line_rows = read.push(mask@);
            }
        }
        let ghost so_far = pixels@;

        // Without a color map a pixel value is the color.
        let mut x: usize = 0;
        while x < width
            invariant
                x <= width,
                row@.len() == width,
                read.len() == planes,
                line_rows.len() >= planes,
                forall|p: int| 0 <= p < planes ==> read[p] == line_rows[p],
                forall|x: int|
                    0 <= x < width ==> #[trigger] row@[x] == pixel_word(read, x, planes as nat),
                pixels@ == so_far + deep_row(line_rows, planes as nat, x as nat),
            decreases width - x,
        {
            let p: u32 = row[x];
            proof {
                lemma_pixel_rows(read, line_rows, x as int, planes as nat);
            }
            pixels.push(#[verifier::truncate] ((p & 0xff) as u8));
            pixels.push(#[verifier::truncate] (((p >> 8) & 0xff) as u8));
            pixels.push(#[verifier::truncate] (((p >> 16) & 0xff) as u8));
            x = x + 1;
        }
        proof {
            let bytes = deep_row(line_rows, planes as nat, width as nat);
            let behind = deep_lines(rows@.data, layout, (height - line - 1) as nat);
            match behind {
                Ok(more) => {
                    assert(so_far + (bytes + more) == (so_far + bytes) + more);
                },
                Err(_) => {},
            }
        }
        line = line + 1;
    }
    image.pixels = pixels;
    Ok(())
}

/// The colors of a line that is resolved whole are three bytes for each pixel.
pub proof fn lemma_resolved_row_len(
    values: Seq<u8>,
    mode: DisplayMode,
    planes: usize,
    map: Seq<RgbValue>,
)
    ensures
        resolved_row(values, mode, planes, map).failure is None ==> resolved_row(
            values,
            mode,
            planes,
            map,
        ).bytes.len() == 3 * values.len(),
{
    if mode.ham_bit() {
        if map.len() > 0 {
            lemma_ham_len(values, map[0], planes, map);
        }
    } else if mode.halfbrite_bit() {
        lemma_halfbrite_len(values, map);
    } else if direct(values, map).failure is None {
        lemma_direct_pixels(values, map);
    }
}

/// The pixels of the lines of a body with a color map are three bytes for each pixel
/// of each line.
pub proof fn lemma_mapped_lines_len(
    data: Seq<u8>,
    layout: Layout,
    mode: DisplayMode,
    map: Seq<RgbValue>,
    lines: nat,
)
    ensures
        mapped_lines(data, layout, mode, map, lines) matches Ok(pixels) ==> pixels.len() == 3
            * layout.width * lines,
    decreases lines,
{
    if lines > 0 {
        match next_rows(
            data,
            row_stride(layout.width as nat),
            layout.compressed,
            layout.rows_per_line(),
        ) {
            Err(_) => {},
            Ok((rows, rest)) => {
                let values = index_row(rows, layout.width as nat, layout.planes as nat);
                lemma_resolved_row_len(values, mode, layout.planes, map);
                lemma_mapped_lines_len(rest, layout, mode, map, (lines - 1) as nat);
                assert(3 * layout.width + 3 * layout.width * (lines - 1) == 3 * layout.width
                    * lines) by (nonlinear_arith);
            },
        }
    } else {
        assert(3 * layout.width * lines == 0) by (nonlinear_arith)
            requires
                lines == 0,
        ;
    }
}

/// A line of an image without a color map is three bytes for each pixel.
pub proof fn lemma_deep_row_len(rows: Seq<Seq<u8>>, planes: nat, width: nat)
    ensures
        deep_row(rows, planes, width).len() == 3 * width,
    decreases width,
{
    if width > 0 {
        lemma_deep_row_len(rows, planes, (width - 1) as nat);
    }
}

/// The pixels of the lines of a body without a color map are three bytes for each
/// pixel of each line.
pub proof fn lemma_deep_lines_len(data: Seq<u8>, layout: Layout, lines: nat)
    ensures
        deep_lines(data, layout, lines) matches Ok(pixels) ==> pixels.len() == 3 * layout.width
            * lines,
    decreases lines,
{
    if lines > 0 {
        match next_rows(
            data,
            row_stride(layout.width as nat),
            layout.compressed,
            layout.rows_per_line(),
        ) {
            Err(_) => {},
            Ok((rows, rest)) => {
                lemma_deep_row_len(rows, layout.planes as nat, layout.width as nat);
                lemma_deep_lines_len(rest, layout, (lines - 1) as nat);
                assert(3 * layout.width + 3 * layout.width * (lines - 1) == 3 * layout.width
                    * lines) by (nonlinear_arith);
            },
        }
    } else {
        assert(3 * layout.width * lines == 0) by (nonlinear_arith)
            requires
                lines == 0,
        ;
    }
}

/// A body whose first row cannot be read fails with the error of that row, as it is:
/// missing data where the body is too short for the row, and the error of the
/// decompression where a compressed row does not expand to a row. This holds with
/// and without a color map, in every display mode and whatever follows in the data.
pub proof fn lemma_first_row_fails(
    data: Seq<u8>,
    layout: Layout,
    mode: DisplayMode,
    map: Seq<RgbValue>,
    lines: nat,
)
    requires
        lines > 0,
        layout.rows_per_line() > 0,
        next_row(data, row_stride(layout.width as nat), layout.compressed) is Err,
    ensures
        mapped_lines(data, layout, mode, map, lines) matches Err(e) && deep_lines(
            data,
            layout,
            lines,
        ) == Err::<Seq<u8>, IlbmErrorView>(e) && next_row(
            data,
            row_stride(layout.width as nat),
            layout.compressed,
        ) == Err::<(Seq<u8>, Seq<u8>), IlbmErrorView>(e),
{
    let stride = row_stride(layout.width as nat);
    assert(next_rows(data, stride, layout.compressed, 0) == Ok::<
        (Seq<Seq<u8>>, Seq<u8>),
        IlbmErrorView,
    >((Seq::empty(), data)));
    assert(next_rows(data, stride, layout.compressed, 1) is Err);
    lemma_rows_missing(data, stride, layout.compressed, 1, layout.rows_per_line());
}

} // verus!
