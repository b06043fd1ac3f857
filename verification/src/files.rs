//! What decoding gives for a whole file of the simplest kind.
//!
//! The simplest image has one line and one plane, is not compressed and has no mask,
//! and comes with a color map of two colors. Every bit of its body picks one of the
//! two colors.
use vstd::prelude::*;

use crate::body::{index_row, layout_of, mapped_lines, next_rows, resolved_row, Layout};
use crate::bytes::be16;
use crate::iff::{
    chunks, encoded_chunks, form_id, lemma_be32_round_trip, lemma_chunks_round_trip, ChunkView,
};
use crate::planes::{next_row, pixel_index, plane_bit, row_stride};
use crate::read::{
    body_id, body_mode, body_pixels, color_map_id, color_map_of, decoded, finished, header_id,
    image_kind, raw_colors, read_chunks, read_container, start_of, step, Gathered, Step,
};
use crate::resolve::{lemma_direct_pixels, lemma_direct_whole};
use crate::{DisplayMode, IlbmErrorView, IlbmImageView, ReadOptions, RgbValue, Size2D};

verus! {

/// The chunks of an image that has a header, a color map and a body, in this order.
pub open spec fn image_chunks(header: Seq<u8>, colors: Seq<u8>, body: Seq<u8>) -> Seq<ChunkView> {
    seq![
        ChunkView { id: header_id(), data: header },
        ChunkView { id: color_map_id(), data: colors },
        ChunkView { id: body_id(), data: body },
    ]
}

/// The container of an image that has a header, a color map and a body.
pub open spec fn image_form(header: Seq<u8>, colors: Seq<u8>, body: Seq<u8>, pad: u8) -> ChunkView {
    ChunkView {
        id: form_id(),
        data: image_kind()@ + encoded_chunks(image_chunks(header, colors, body), pad),
    }
}

/// The bytes of a file that holds one image with a header, a color map and a body,
/// and nothing else. Padding bytes have the value `pad`.
pub open spec fn image_file(header: Seq<u8>, colors: Seq<u8>, body: Seq<u8>, pad: u8) -> Seq<u8> {
    encoded_chunks(seq![image_form(header, colors, body, pad)], pad)
}

/// Whether the 20 bytes of `header` describe an image of one line and one plane that
/// is not compressed and has no mask.
pub open spec fn single_plane_header(header: Seq<u8>) -> bool {
    &&& header.len() == 20
    &&& be16(header) > 0
    &&& be16(header.skip(2)) == 1
    &&& header[8] == 1
    &&& header[9] != 1
    &&& header[10] == 0
}

/// The three bytes of pixel `x` in a buffer of pixels are the channels of `color`.
pub open spec fn pixel_is(pixels: Seq<u8>, x: int, color: RgbValue) -> bool {
    &&& pixels[3 * x] == color.0
    &&& pixels[3 * x + 1] == color.1
    &&& pixels[3 * x + 2] == color.2
}

/// The color that a bit of the body of an image of one plane picks from a map of two
/// colors.
pub open spec fn picked(map: Seq<RgbValue>, body: Seq<u8>, x: int) -> RgbValue {
    if plane_bit(body, x) {
        map[1]
    } else {
        map[0]
    }
}

/// One line of one plane, neither compressed nor masked, resolves by plain lookup to
/// the color that each of its bits picks from a map of two colors.
pub proof fn lemma_single_plane_line(
    body: Seq<u8>,
    layout: Layout,
    mode: DisplayMode,
    map: Seq<RgbValue>,
)
    requires
        layout.planes == 1,
        !layout.masked,
        !layout.compressed,
        body.len() == row_stride(layout.width as nat),
        !mode.ham_bit(),
        !mode.halfbrite_bit(),
        map.len() == 2,
    ensures
        mapped_lines(body, layout, mode, map, 1) matches Ok(pixels) && pixels.len() == 3
            * layout.width && forall|x: int|
            0 <= x < layout.width ==> pixel_is(pixels, x, #[trigger] picked(map, body, x)),
{
    let stride = row_stride(layout.width as nat);
    let rows = Seq::<Seq<u8>>::empty().push(body);
    let rest = body.skip(stride as int);

    // The body is one row, and nothing is left behind it.
    assert(next_rows(body, stride, false, 0) == Ok::<(Seq<Seq<u8>>, Seq<u8>), IlbmErrorView>(
        (Seq::<Seq<u8>>::empty(), body),
    ));
    assert(body.subrange(0, stride as int) == body);
    assert(next_row(body, stride, false) == Ok::<(Seq<u8>, Seq<u8>), IlbmErrorView>(
        (body, rest),
    ));
    assert(next_rows(body, stride, false, 1) == Ok::<(Seq<Seq<u8>>, Seq<u8>), IlbmErrorView>(
        (rows, rest),
    ));

    // A pixel of one plane has the value 0 or 1, and the map has a color for both.
    let values = index_row(rows, layout.width as nat, 1);
    assert(0u8 | (1u8 << 0u8) == 1u8) by (bit_vector);
    assert forall|x: int| 0 <= x < values.len() implies (#[trigger] values[x]) < map.len()
        && values[x] == if plane_bit(body, x) {
        1u8
    } else {
        0u8
    } by {
        assert(pixel_index(rows, x, 0) == 0);
    }
    lemma_direct_whole(values, map);
    lemma_direct_pixels(values, map);

    // The line is the whole image.
    let resolved = resolved_row(values, mode, layout.planes, map);
    assert(mapped_lines(rest, layout, mode, map, 0) == Ok::<Seq<u8>, IlbmErrorView>(
        Seq::empty(),
    ));
    assert(mapped_lines(body, layout, mode, map, 1) == Ok::<Seq<u8>, IlbmErrorView>(
        resolved.bytes,
    ));
    assert forall|x: int| 0 <= x < layout.width implies pixel_is(
        resolved.bytes,
        x,
        #[trigger] picked(map, body, x),
    ) by {
        assert(map[values[x] as int] == picked(map, body, x));
    }
}

/// Options that ask for the pixels as the file holds them.
pub open spec fn plain_options() -> ReadOptions {
    ReadOptions { read_pixels: true, page_scale: false }
}

/// Whether `image` has one line of `width` pixels, each of the color that its bit of
/// `body` picks from the two colors of `map`.
pub open spec fn shows_bits(
    image: IlbmImageView,
    width: int,
    map: Seq<RgbValue>,
    body: Seq<u8>,
) -> bool {
    &&& image.size == Size2D(width as usize, 1)
    &&& image.pixels.len() == 3 * width
    &&& forall|x: int| 0 <= x < width ==> pixel_is(image.pixels, x, #[trigger] picked(map, body, x))
}

/// The chunks of the simplest image end the reading with that image: one line, each
/// pixel of the color that its bit picks from the map.
pub proof fn lemma_single_plane_chunks(
    start: Gathered,
    header: Seq<u8>,
    colors: Seq<u8>,
    body: Seq<u8>,
)
    requires
        single_plane_header(header),
        colors.len() == 6,
        body.len() == row_stride(be16(header) as nat),
        !start.got_display_mode,
        start.image.display_mode == DisplayMode(0),
    ensures
        read_chunks(start, image_chunks(header, colors, body), plain_options()) matches Some(
            Ok(image),
        ) && shows_bits(image, be16(header), color_map_of(colors), body),
{
    let options = plain_options();
    let list = image_chunks(header, colors, body);
    let map = color_map_of(colors);
    assert(map.len() == 2) by {
        assert(raw_colors(colors).len() == 2);
    }
    assert(0u32 & 0x800 == 0 && 0u32 & 0x80 == 0) by (bit_vector);

    // The header is without fault, and is taken over.
    let first = step(start, list[0], options);
    assert(first is Next);
    let with_header = first->Next_0;

    // So is the color map.
    let second = step(with_header, list[1], options);
    assert(second is Next);
    let with_map = second->Next_0;
    assert(with_map.map == Some(map));

    // The body ends the reading. Its one line is resolved by plain lookup.
    let noted = IlbmImageView {
        chunk_types: with_map.image.chunk_types.push(body_id()),
        ..with_map.image
    };
    let state = Gathered { image: noted, ..with_map };
    assert(step(with_map, list[2], options) == Step::Done(finished(state, body, options)));
    let mode = body_mode(state);
    assert(mode == DisplayMode(0));
    let image = IlbmImageView { display_mode: mode, ..noted };
    lemma_single_plane_line(body, layout_of(image), mode, map);
    assert(body_pixels(body, image, mode, state.map) == mapped_lines(
        body,
        layout_of(image),
        mode,
        map,
        1,
    ));

    // The three steps follow each other.
    let behind_header = list.skip(1);
    let behind_map = behind_header.skip(1);
    assert(behind_header[0] == list[1] && behind_map[0] == list[2]);
    assert(read_chunks(with_map, behind_map, options) == Some(finished(state, body, options)));
    assert(read_chunks(with_header, behind_header, options) == read_chunks(
        with_map,
        behind_map,
        options,
    ));
}

/// A file that holds the simplest image and nothing else decodes to that image: one
/// line of as many pixels as the header says, three bytes each, and each pixel of the
/// color that its bit of the body picks from the two colors of the map.
pub proof fn lemma_single_plane_file(header: Seq<u8>, colors: Seq<u8>, body: Seq<u8>, pad: u8)
    requires
        single_plane_header(header),
        colors.len() == 6,
        body.len() == row_stride(be16(header) as nat),
    ensures
        decoded(image_file(header, colors, body, pad), plain_options()) matches Ok(image)
            && shows_bits(image, be16(header), color_map_of(colors), body),
{
    let options = plain_options();
    let list = image_chunks(header, colors, body);
    let form = image_form(header, colors, body, pad);
    let inner = encoded_chunks(list, pad);

    // The chunks of the image are short, and so is the container that holds them.
    lemma_be32_round_trip(20);
    lemma_be32_round_trip(6);
    lemma_be32_round_trip(body.len());
    assert(inner.len() <= 8300) by {
        reveal_with_fuel(encoded_chunks, 4);
    }

    // The file holds the container, and nothing else.
    lemma_chunks_round_trip(seq![form], pad);

    // The container is of the kind that holds an image, and holds the three chunks.
    assert(form.data.subrange(0, 4) == image_kind()@);
    assert(form.data.skip(4) == inner);
    lemma_chunks_round_trip(list, pad);
    assert(read_container(form, options) == read_chunks(start_of(form), list, options));
    lemma_single_plane_chunks(start_of(form), header, colors, body);
}

} // verus!
