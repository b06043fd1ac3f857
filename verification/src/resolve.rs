//! From the pixel values of one row to colors.
//!
//! A row of pixel values becomes three bytes per pixel in one of three ways: each
//! value picks a color of the map; or, in hold-and-modify mode, a value either picks
//! a color or changes one channel of the color before it; or, in half-brightness
//! mode, a value picks a color and says whether to darken it.
use vstd::prelude::*;

use crate::{ColorMap, IlbmError, IlbmErrorView, RgbValue};

verus! {

/// What resolving a row gives: the bytes of the pixels that were resolved, and the
/// error that stopped the row, if any did.
pub struct Resolved {
    pub bytes: Seq<u8>,
    pub failure: Option<IlbmErrorView>,
}

impl Resolved {
    /// The bytes of `color` put before what `self` holds.
    pub open spec fn after(self, color: RgbValue) -> Resolved {
        Resolved { bytes: seq![color.0, color.1, color.2] + self.bytes, failure: self.failure }
    }
}

/// A row that ends here: no bytes, no error.
pub open spec fn resolved_end() -> Resolved {
    Resolved { bytes: Seq::empty(), failure: None }
}

/// A row that stops because the map of `map_size` colors has none at `index`.
pub open spec fn resolved_without(index: usize, map_size: usize) -> Resolved {
    Resolved {
        bytes: Seq::empty(),
        failure: Some(IlbmErrorView::NoMapEntry { index, map_size }),
    }
}

/// A row resolved by plain lookup: each pixel value is the index of its color. The
/// row stops at the first value that the map has no color for.
pub open spec fn direct(row: Seq<u8>, map: Seq<RgbValue>) -> Resolved
    decreases row.len(),
{
    if row.len() == 0 {
        resolved_end()
    } else if row[0] >= map.len() {
        resolved_without(row[0] as usize, map.len() as usize)
    } else {
        direct(row.skip(1), map).after(map[row[0] as int])
    }
}

/// The color of one pixel in half-brightness mode: the low five bits of the value
/// pick the color, and bit five halves each of its channels.
pub open spec fn halfbrite_color(value: u8, map: Seq<RgbValue>) -> RgbValue {
    let color = map[(value & 0x1f) as int];
    if value & 0x20 != 0 {
        RgbValue(color.0 >> 1, color.1 >> 1, color.2 >> 1)
    } else {
        color
    }
}

/// A row resolved in half-brightness mode. The row stops at the first value whose
/// low five bits the map has no color for.
pub open spec fn halfbrite(row: Seq<u8>, map: Seq<RgbValue>) -> Resolved
    decreases row.len(),
{
    if row.len() == 0 {
        resolved_end()
    } else if (row[0] & 0x1f) >= map.len() {
        resolved_without((row[0] & 0x1f) as usize, map.len() as usize)
    } else {
        halfbrite(row.skip(1), map).after(halfbrite_color(row[0], map))
    }
}

/// The two bits of a pixel value that say what a hold-and-modify pixel does, for an
/// image of `planes` planes: they lie above the `planes - 2` low bits.
pub open spec fn ham_select(value: u8, planes: usize) -> u32 {
    (value as u32) >> ((planes - 2) as u32)
}

/// The number that has the low `planes - 2` bits set and no others.
pub open spec fn ham_mask(planes: usize) -> u32 {
    ((1u32 << ((planes - 2) as u32)) - 1) as u32
}

/// The low `planes - 2` bits of a pixel value: an index into the map, or the new level
/// of one channel.
pub open spec fn ham_low(value: u8, planes: usize) -> u32 {
    (value as u32) & ham_mask(planes)
}

/// The level of a channel that the low bits `low` of a pixel stand for: the bits are
/// moved up to the top of the byte, and a second copy of them is put right below
/// them, as far as there is room. With four level bits or more the copy fills the
/// byte, and the highest level is 255.
pub open spec fn ham_level(low: u32, planes: usize) -> u8 {
    let raised = low << ((10 - planes) as u32);
    (raised | (raised >> ((planes - 2) as u32))) as u8
}

/// The color of a hold-and-modify pixel that follows a pixel of the color `held`.
/// Select 0 picks a color from the map; 1 takes `held` with a new blue, 2 with a new
/// red, 3 with a new green.
pub open spec fn ham_color(
    held: RgbValue,
    value: u8,
    planes: usize,
    map: Seq<RgbValue>,
) -> RgbValue {
    let select = ham_select(value, planes);
    let low = ham_low(value, planes);
    if select == 0 {
        map[low as int]
    } else if select == 1 {
        RgbValue(held.0, held.1, ham_level(low, planes))
    } else if select == 2 {
        RgbValue(ham_level(low, planes), held.1, held.2)
    } else {
        RgbValue(held.0, ham_level(low, planes), held.2)
    }
}

/// The pixels of a hold-and-modify row that follow a pixel of the color `held`. The
/// row stops at the first pixel that picks a color which the map does not have.
pub open spec fn ham_from(
    row: Seq<u8>,
    held: RgbValue,
    planes: usize,
    map: Seq<RgbValue>,
) -> Resolved
    decreases row.len(),
{
    if row.len() == 0 {
        resolved_end()
    } else if ham_select(row[0], planes) == 0 && ham_low(row[0], planes) >= map.len() {
        resolved_without(ham_low(row[0], planes) as usize, map.len() as usize)
    } else {
        let color = ham_color(held, row[0], planes, map);
        ham_from(row.skip(1), color, planes, map).after(color)
    }
}

/// A row resolved in hold-and-modify mode. The color held at the start of the row is
/// the first color of the map, which is the color of the border; a map without
/// colors has none, and stops the row before its first pixel.
pub open spec fn ham(row: Seq<u8>, planes: usize, map: Seq<RgbValue>) -> Resolved {
    if map.len() == 0 {
        resolved_without(0, 0)
    } else {
        ham_from(row, map[0], planes, map)
    }
}

/// Whether the outcome `r` of resolving a row, which was to add its bytes to
/// `before` and left `after`, is the outcome `resolved`.
pub open spec fn resolves(
    r: Result<(), IlbmError>,
    before: Seq<u8>,
    after: Seq<u8>,
    resolved: Resolved,
) -> bool {
    &&& after == before + resolved.bytes
    &&& match r {
        Ok(_) => resolved.failure is None,
        Err(e) => resolved.failure == Some(e@),
    }
}

/// Adds to `pixels` the colors that the pixel values of `row` pick from the map.
pub fn push_row_bytes(row: Vec<u8>, color_map: &ColorMap, pixels: &mut Vec<u8>) -> (r: Result<
    (),
    IlbmError,
>)
    ensures
        resolves(r, old(pixels)@, final(pixels)@, direct(row@, color_map.colors@)),
{
    let ghost before = pixels@;
    let ghost map = color_map.colors@;
    let ghost mut done: Seq<u8> = Seq::empty();
    let mut i: usize = 0;
    assert(row@.skip(0) == row@);
    while i < row.len()
        invariant
            i <= row.len(),
            map == color_map.colors@,
            before == old(pixels)@,
            pixels@ == before + done,
            direct(row@, map).bytes == done + direct(row@.skip(i as int), map).bytes,
            direct(row@, map).failure == direct(row@.skip(i as int), map).failure,
        decreases row.len() - i,
    {
        let index: usize = row[i] as usize;
        let map_size: usize = color_map.colors.len();
        let ghost rest = row@.skip(i as int);
        assert(rest.skip(1) == row@.skip(i + 1));

        if index >= map_size {
            return Err(IlbmError::NoMapEntry { index, map_size });
        }
        let rgb: RgbValue = color_map.colors[index];

        pixels.push(rgb.0);
        pixels.push(rgb.1);
        pixels.push(rgb.2);
        proof {
            let bytes = seq![rgb.0, rgb.1, rgb.2];
            done = done + bytes;
        }
        i = i + 1;
    }
    Ok(())
}

/// Adds to `pixels` the colors of a row in hold-and-modify mode. Two of the `planes`
/// bits of a pixel value say whether its low bits pick a color from the map or set one
/// channel of the color of the pixel before it.
pub fn push_row_bytes_ham(
    row: Vec<u8>,
    planes: usize,
    color_map: &ColorMap,
    pixels: &mut Vec<u8>,
) -> (r: Result<(), IlbmError>)
    requires
        2 <= planes <= 8,
        forall|i: int| 0 <= i < row@.len() ==> ham_select(#[trigger] row@[i], planes) <= 3,
    ensures
        resolves(r, old(pixels)@, final(pixels)@, ham(row@, planes, color_map.colors@)),
{
    let map_size: usize = color_map.colors.len();

    // Two planes say what to do; the others hold an index or a level.
    let mod_shift: u32 = (planes - 2) as u32;
    assert((1u32 << mod_shift) >= 1) by (bit_vector)
        requires
            mod_shift <= 6,
    ;
    let index_mask: u32 = (1u32 << mod_shift) - 1;

    // A level has fewer than eight bits, and is moved up to fill a byte.
    let mod_color_shift: u32 = 8 - mod_shift;

    if map_size == 0 {
        return Err(IlbmError::NoMapEntry { index: 0, map_size });
    }
    // A row starts from the color of the border.
    let mut color: RgbValue = color_map.colors[0];

    let ghost before = pixels@;
    let ghost map = color_map.colors@;
    let ghost whole = ham(row@, planes, map);
    let ghost mut done: Seq<u8> = Seq::empty();
    let mut i: usize = 0;
    assert(row@.skip(0) == row@);
    while i < row.len()
        invariant
            i <= row.len(),
            2 <= planes <= 8,
            mod_shift == planes - 2,
            mod_color_shift == 10 - planes,
            index_mask == (1u32 << mod_shift) - 1,
            forall|i: int| 0 <= i < row@.len() ==> ham_select(#[trigger] row@[i], planes) <= 3,
            map == color_map.colors@,
            map_size == map.len(),
            before == old(pixels)@,
            pixels@ == before + done,
            whole == ham(row@, planes, color_map.colors@),
            whole.bytes == done + ham_from(row@.skip(i as int), color, planes, map).bytes,
            whole.failure == ham_from(row@.skip(i as int), color, planes, map).failure,
        decreases row.len() - i,
    {
        let row_val: u32 = row[i] as u32;
        let mod_bits: u32 = row_val >> mod_shift;
        let low_bits: u32 = row_val & index_mask;
        let ghost rest = row@.skip(i as int);
        assert(rest.skip(1) == row@.skip(i + 1));

        if mod_bits == 0 {
            // The low bits pick a color, as they do outside this mode.
            if low_bits as usize >= map_size {
                return Err(IlbmError::NoMapEntry { index: low_bits as usize, map_size });
            }
            color = color_map.colors[low_bits as usize];
        } else {
            // The low bits are the new level of one channel. Moved up they leave
            // zeros at the bottom, where a second copy of them is put, so that the
            // highest level can be full brightness.
            let mut component: u32 = low_bits << mod_color_shift;
            component |= component >> (8 - mod_color_shift);
            let level: u8 = #[verifier::truncate]
            (component as u8);
            if mod_bits == 2 {
                color.0 = level;
            } else if mod_bits == 1 {
                color.2 = level;
            } else {
                color.1 = level;
            }
        }

        pixels.push(color.0);
        pixels.push(color.1);
        pixels.push(color.2);
        proof {
            let bytes = seq![color.0, color.1, color.2];
            done = done + bytes;
        }
        i = i + 1;
    }
    Ok(())
}

/// Adds to `pixels` the colors of a row in half-brightness mode: the low five bits of
/// a pixel value pick the color, and the sixth bit halves it.
pub fn push_row_bytes_halfbrite(row: Vec<u8>, color_map: &ColorMap, pixels: &mut Vec<u8>) -> (r:
    Result<(), IlbmError>)
    ensures
        resolves(r, old(pixels)@, final(pixels)@, halfbrite(row@, color_map.colors@)),
{
    let low_bits: u8 = 0x1f;
    let half_bit: u8 = 0x20;

    let ghost before = pixels@;
    let ghost map = color_map.colors@;
    let ghost mut done: Seq<u8> = Seq::empty();
    let mut i: usize = 0;
    assert(row@.skip(0) == row@);
    while i < row.len()
        invariant
            i <= row.len(),
            low_bits == 0x1f,
            half_bit == 0x20,
            map == color_map.colors@,
            before == old(pixels)@,
            pixels@ == before + done,
            halfbrite(row@, map).bytes == done + halfbrite(row@.skip(i as int), map).bytes,
            halfbrite(row@, map).failure == halfbrite(row@.skip(i as int), map).failure,
        decreases row.len() - i,
    {
        let p: u8 = row[i];
        let index: usize = (p & low_bits) as usize;
        let map_size: usize = color_map.colors.len();
        let ghost rest = row@.skip(i as int);
        assert(rest.skip(1) == row@.skip(i + 1));

        if index >= map_size {
            return Err(IlbmError::NoMapEntry { index, map_size });
        }
        let rgb: RgbValue = color_map.colors[index];
        let shown: RgbValue = if p & half_bit != 0 {
            RgbValue(rgb.0 >> 1, rgb.1 >> 1, rgb.2 >> 1)
        } else {
            rgb
        };

        pixels.push(shown.0);
        pixels.push(shown.1);
        pixels.push(shown.2);
        proof {
            let bytes = seq![shown.0, shown.1, shown.2];
            done = done + bytes;
        }
        i = i + 1;
    }
    Ok(())
}

/// A row that plain lookup resolves whole has three bytes for each pixel: the
/// channels of the color that the value of the pixel picks.
pub proof fn lemma_direct_pixels(row: Seq<u8>, map: Seq<RgbValue>)
    requires
        direct(row, map).failure is None,
    ensures
        direct(row, map).bytes.len() == 3 * row.len(),
        forall|i: int|
            0 <= i < row.len() ==> {
                let bytes = direct(row, map).bytes;
                let color = map[(#[trigger] row[i]) as int];
                &&& row[i] < map.len()
                &&& bytes[3 * i] == color.0
                &&& bytes[3 * i + 1] == color.1
                &&& bytes[3 * i + 2] == color.2
            },
    decreases row.len(),
{
    if row.len() > 0 {
        let tail = row.skip(1);
        lemma_direct_pixels(tail, map);
        let bytes = direct(row, map).bytes;
        assert forall|i: int| 0 <= i < row.len() implies {
            let color = map[(#[trigger] row[i]) as int];
            &&& row[i] < map.len()
            &&& bytes[3 * i] == color.0
            &&& bytes[3 * i + 1] == color.1
            &&& bytes[3 * i + 2] == color.2
        } by {
            if i > 0 {
                assert(tail[i - 1] == row[i]);
            }
        }
    }
}

/// Plain lookup resolves a row whole when the map has a color for each of its values.
pub proof fn lemma_direct_whole(row: Seq<u8>, map: Seq<RgbValue>)
    requires
        forall|i: int| 0 <= i < row.len() ==> (#[trigger] row[i]) < map.len(),
    ensures
        direct(row, map).failure is None,
    decreases row.len(),
{
    if row.len() > 0 {
        let tail = row.skip(1);
        assert forall|i: int| 0 <= i < tail.len() implies (#[trigger] tail[i]) < map.len() by {
            assert(tail[i] == row[i + 1]);
        }
        lemma_direct_whole(tail, map);
    }
}

/// A row that half-brightness mode resolves whole has three bytes for each pixel.
pub proof fn lemma_halfbrite_len(row: Seq<u8>, map: Seq<RgbValue>)
    ensures
        halfbrite(row, map).failure is None ==> halfbrite(row, map).bytes.len() == 3 * row.len(),
    decreases row.len(),
{
    if row.len() > 0 {
        lemma_halfbrite_len(row.skip(1), map);
    }
}

/// A row that hold-and-modify mode resolves whole has three bytes for each pixel.
pub proof fn lemma_ham_len(row: Seq<u8>, held: RgbValue, planes: usize, map: Seq<RgbValue>)
    ensures
        ham_from(row, held, planes, map).failure is None ==> ham_from(
            row,
            held,
            planes,
            map,
        ).bytes.len() == 3 * row.len(),
    decreases row.len(),
{
    if row.len() > 0 {
        lemma_ham_len(row.skip(1), ham_color(held, row[0], planes, map), planes, map);
    }
}

/// With 6 planes or more, which leave four level bits at least, the levels of a
/// channel reach from nothing to full brightness: the lowest is 0, and the highest,
/// with all level bits set, is 255.
pub proof fn lemma_ham_level_range(planes: usize)
    requires
        6 <= planes <= 8,
    ensures
        ham_level(0, planes) == 0,
        ham_level(ham_mask(planes), planes) == 255,
{
    let up = (10 - planes) as u32;
    let down = (planes - 2) as u32;
    assert(((0u32 << up) | ((0u32 << up) >> down)) as u8 == 0) by (bit_vector);
    assert((1u32 << down) >= 1) by (bit_vector)
        requires
            down <= 6,
    ;
    let top = ham_mask(planes);
    assert((((top << up) | ((top << up) >> down)) as u8) == 255) by (bit_vector)
        requires
            4 <= down <= 6,
            up == 8 - down,
            top == (1u32 << down) - 1,
    ;
}

} // verus!
