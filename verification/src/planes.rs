//! The body of an image: bitplanes, row by row.
//!
//! The body holds the image line by line, and each line plane by plane: one row of
//! bytes for each plane, with one bit for each pixel, the leftmost pixel in the top
//! bit of the first byte. Plane `p` gives bit `p` of every pixel value. A row of a
//! plane is a whole number of 16-bit words long, and may be compressed. A row that
//! cannot be read fails with the error of what was reading it: missing data, or what
//! the decompression failed with.
use vstd::prelude::*;

use crate::compression::{lemma_unpacked_len, unpacked, unpacker};
use crate::{IlbmError, IlbmErrorView};

verus! {

/// The length in bytes of one row of one plane, for an image `width` pixels wide:
/// rows are padded to a whole number of 16-bit words.
pub open spec fn row_stride(width: nat) -> nat {
    (width + 15) / 16 * 2
}

/// A row is an even number of bytes, and has a bit for each pixel of the width with
/// fewer than 16 bits left over.
pub proof fn lemma_row_stride(width: nat)
    ensures
        row_stride(width) % 2 == 0,
        width <= row_stride(width) * 8 < width + 16,
{
}

/// One row of a plane read from the front of `data`: the row and the data behind it.
/// A row of a body that is not compressed is the next `stride` bytes, and data that
/// ends before them is an error of missing data. A row of a compressed body is what
/// the front of the data decompresses to, and an error of the decompression is the
/// error of the row, as it is.
pub open spec fn next_row(data: Seq<u8>, stride: nat, compressed: bool) -> Result<
    (Seq<u8>, Seq<u8>),
    IlbmErrorView,
> {
    if compressed {
        match unpacked(data, stride) {
            Ok((rest, row)) => Ok((row, rest)),
            Err(e) => Err(e),
        }
    } else if data.len() < stride {
        Err(IlbmErrorView::NoData)
    } else {
        Ok((data.subrange(0, stride as int), data.skip(stride as int)))
    }
}

/// A row that was read has the length of a row.
pub proof fn lemma_next_row_len(data: Seq<u8>, stride: nat, compressed: bool)
    ensures
        next_row(data, stride, compressed) matches Ok((row, _)) ==> row.len() == stride,
{
    if compressed {
        lemma_unpacked_len(data, Seq::empty(), stride);
    }
}

/// What a [`RowIter`] still has to read, and how.
pub struct RowIterView {
    pub data: Seq<u8>,
    pub width: usize,
    pub compressed: bool,
}

impl RowIterView {
    /// The row that is read next, and the data behind it.
    pub open spec fn next_row(self) -> Result<(Seq<u8>, Seq<u8>), IlbmErrorView> {
        next_row(self.data, self.width as nat, self.compressed)
    }
}

/// Reads the rows of the planes from the body of an image, one after the other, and
/// decompresses them where the body is compressed.
pub struct RowIter<'a> {
    raw_data: &'a [u8],
    width: usize,
    compressed: bool,
}

impl<'a> View for RowIter<'a> {
    type V = RowIterView;

    closed spec fn view(&self) -> RowIterView {
        RowIterView { data: self.raw_data@, width: self.width, compressed: self.compressed }
    }
}

impl<'a> RowIter<'a> {
    /// A reader of rows of `width` bytes at the front of `raw_data`.
    pub fn new(raw_data: &'a [u8], width: usize, compressed: bool) -> (rows: RowIter<'a>)
        ensures
            rows@ == (RowIterView { data: raw_data@, width, compressed }),
    {
        RowIter { raw_data, width, compressed }
    }

    /// Reads the next row, or says why there is none: the data ends before the row
    /// does, or what the decompression of the row failed with. A row that fails is
    /// not read.
    pub fn read_row(&mut self) -> (r: Result<Vec<u8>, IlbmError>)
        ensures
            final(self)@.width == old(self)@.width,
            final(self)@.compressed == old(self)@.compressed,
            match old(self)@.next_row() {
                Ok((row, rest)) => r matches Ok(bytes) && bytes@ == row && bytes@.len()
                    == old(self)@.width && final(self)@.data == rest,
                Err(e) => r matches Err(err) && err@ == e && final(self)@.data == old(
                    self,
                )@.data,
            },
    {
        proof {
            lemma_next_row_len(self.raw_data@, self.width as nat, self.compressed);
        }
        if self.compressed {
            let (remaining, row) = unpacker(self.raw_data, self.width)?;
            self.raw_data = remaining;
            Ok(row)
        } else {
            if self.raw_data.len() < self.width {
                Err(IlbmError::NoData)
            } else {
                let (row, rest) = self.raw_data.split_at(self.width);
                self.raw_data = rest;
                let mut bytes: Vec<u8> = Vec::new();
                bytes.extend_from_slice(row);
                Ok(bytes)
            }
        }
    }

    /// Reads the next row. The rows end where [`RowIter::read_row`] fails, and
    /// nothing is read there.
    pub fn next(&mut self) -> (r: Option<Vec<u8>>)
        ensures
            final(self)@.width == old(self)@.width,
            final(self)@.compressed == old(self)@.compressed,
            match old(self)@.next_row() {
                Ok((row, rest)) => r matches Some(bytes) && bytes@ == row && bytes@.len()
                    == old(self)@.width && final(self)@.data == rest,
                Err(_) => r is None && final(self)@.data == old(self)@.data,
            },
    {
        match self.read_row() {
            Ok(row) => Some(row),
            Err(_) => None,
        }
    }
}

/// Whether the row `row` of a plane has the bit of pixel `x` set: pixel 0 is the top
/// bit of the first byte. A row has no bits set beyond its end.
pub open spec fn plane_bit(row: Seq<u8>, x: int) -> bool {
    0 <= x < row.len() * 8 && row[x / 8] & (0x80u8 >> ((x % 8) as u8)) != 0
}

/// The value of pixel `x` that the first `planes` of the rows in `rows` give, for an
/// image with a color map: plane `p` gives bit `p`.
pub open spec fn pixel_index(rows: Seq<Seq<u8>>, x: int, planes: nat) -> u8
    decreases planes,
{
    if planes == 0 {
        0
    } else {
        let below = pixel_index(rows, x, (planes - 1) as nat);
        if plane_bit(rows[planes - 1], x) {
            below | (1u8 << ((planes - 1) as u8))
        } else {
            below
        }
    }
}

/// The value of pixel `x` that the first `planes` of the rows in `rows` give, for an
/// image without a color map: plane `p` gives bit `p`.
pub open spec fn pixel_word(rows: Seq<Seq<u8>>, x: int, planes: nat) -> u32
    decreases planes,
{
    if planes == 0 {
        0
    } else {
        let below = pixel_word(rows, x, (planes - 1) as nat);
        if plane_bit(rows[planes - 1], x) {
            below | (1u32 << ((planes - 1) as u32))
        } else {
            below
        }
    }
}

/// The value of a pixel depends on no more rows than there are planes.
pub proof fn lemma_pixel_rows(rows: Seq<Seq<u8>>, more: Seq<Seq<u8>>, x: int, planes: nat)
    requires
        planes <= rows.len() <= more.len(),
        forall|p: int| 0 <= p < planes ==> rows[p] == more[p],
    ensures
        pixel_index(rows, x, planes) == pixel_index(more, x, planes),
        pixel_word(rows, x, planes) == pixel_word(more, x, planes),
    decreases planes,
{
    if planes > 0 {
        lemma_pixel_rows(rows, more, x, (planes - 1) as nat);
    }
}

/// Sets the bit `plane_bit` in each of the first `width` pixel values of `row` whose
/// bit is set in the row `plane_data` of a plane. Bits of the plane beyond `width`
/// are padding.
pub fn set_plane_bits(row: &mut Vec<u8>, plane_data: &Vec<u8>, plane_bit: u8, width: usize)
    requires
        old(row)@.len() == width,
        plane_data@.len() * 8 <= usize::MAX,
    ensures
        final(row)@.len() == width,
        forall|x: int|
            0 <= x < width ==> #[trigger] final(row)@[x] == if self::plane_bit(plane_data@, x) {
                old(row)@[x] | plane_bit
            } else {
                old(row)@[x]
            },
{
    let ghost start = row@;
    let mut offset: usize = 0;
    while offset < plane_data.len()
        invariant
            offset <= plane_data.len(),
            start == old(row)@,
            start.len() == width,
            row@.len() == width,
            plane_data@.len() * 8 <= usize::MAX,
            forall|x: int|
                0 <= x < width && x < offset * 8 ==> #[trigger] row@[x] == if self::plane_bit(
                    plane_data@,
                    x,
                ) {
                    start[x] | plane_bit
                } else {
                    start[x]
                },
            forall|x: int| offset * 8 <= x < width ==> #[trigger] row@[x] == start[x],
        decreases plane_data.len() - offset,
    {
        let byte: u8 = plane_data[offset];
        let mut plane_byte: u8 = byte;
        let mut b: usize = 0;
        assert(byte << 0u8 == byte) by (bit_vector);
        while b < 8
            invariant
                b <= 8,
                offset < plane_data.len(),
                byte == plane_data@[offset as int],
                b < 8 ==> plane_byte == byte << (b as u8),
                start.len() == width,
                row@.len() == width,
                plane_data@.len() * 8 <= usize::MAX,
                forall|x: int|
                    0 <= x < width && x < offset * 8 + b ==> #[trigger] row@[x]
                        == if self::plane_bit(plane_data@, x) {
                        start[x] | plane_bit
                    } else {
                        start[x]
                    },
                forall|x: int| offset * 8 + b <= x < width ==> #[trigger] row@[x] == start[x],
            decreases 8 - b,
        {
            let index: usize = (offset * 8) + b;
            let ghost shift = b as u8;
            assert((plane_byte & 0x80 != 0) == (byte & (0x80u8 >> shift) != 0)) by (bit_vector)
                requires
                    shift < 8,
                    plane_byte == byte << shift,
            ;
            if plane_byte & 0x80 != 0 {
                // Rows are padded, so a plane may hold more bits than the image
                // has pixels.
                if index < width {
                    let value: u8 = row[index] | plane_bit;
                    row[index] = value;
                }
            }
            proof {
                if b < 7 {
                    assert((plane_byte << 1u8) == byte << ((shift + 1) as u8)) by (bit_vector)
                        requires
                            shift < 7,
                            plane_byte == byte << shift,
                    ;
                }
            }
            plane_byte = plane_byte << 1;
            b = b + 1;
        }
        offset = offset + 1;
    }
}

/// Does for an image without a color map, whose pixel values have up to 32 bits,
/// what [`set_plane_bits`] does for one with a color map.
pub fn set_plane_bits_deep(
    row: &mut Vec<u32>,
    plane_data: &Vec<u8>,
    plane_bit: u32,
    width: usize,
)
    requires
        old(row)@.len() == width,
        plane_data@.len() * 8 <= usize::MAX,
    ensures
        final(row)@.len() == width,
        forall|x: int|
            0 <= x < width ==> #[trigger] final(row)@[x] == if self::plane_bit(plane_data@, x) {
                old(row)@[x] | plane_bit
            } else {
                old(row)@[x]
            },
{
    let ghost start = row@;
    let mut offset: usize = 0;
    while offset < plane_data.len()
        invariant
            offset <= plane_data.len(),
            start == old(row)@,
            start.len() == width,
            row@.len() == width,
            plane_data@.len() * 8 <= usize::MAX,
            forall|x: int|
                0 <= x < width && x < offset * 8 ==> #[trigger] row@[x] == if self::plane_bit(
                    plane_data@,
                    x,
                ) {
                    start[x] | plane_bit
                } else {
                    start[x]
                },
            forall|x: int| offset * 8 <= x < width ==> #[trigger] row@[x] == start[x],
        decreases plane_data.len() - offset,
    {
        let byte: u8 = plane_data[offset];
        let mut plane_byte: u8 = byte;
        let mut b: usize = 0;
        assert(byte << 0u8 == byte) by (bit_vector);
        while b < 8
            invariant
                b <= 8,
                offset < plane_data.len(),
                byte == plane_data@[offset as int],
                b < 8 ==> plane_byte == byte << (b as u8),
                start.len() == width,
                row@.len() == width,
                plane_data@.len() * 8 <= usize::MAX,
                forall|x: int|
                    0 <= x < width && x < offset * 8 + b ==> #[trigger] row@[x]
                        == if self::plane_bit(plane_data@, x) {
                        start[x] | plane_bit
                    } else {
                        start[x]
                    },
                forall|x: int| offset * 8 + b <= x < width ==> #[trigger] row@[x] == start[x],
            decreases 8 - b,
        {
            let index: usize = (offset * 8) + b;
            let ghost shift = b as u8;
            assert((plane_byte & 0x80 != 0) == (byte & (0x80u8 >> shift) != 0)) by (bit_vector)
                requires
                    shift < 8,
                    plane_byte == byte << shift,
            ;
            if plane_byte & 0x80 != 0 {
                // Rows are padded, so a plane may hold more bits than the image
                // has pixels.
                if index < width {
                    let value: u32 = row[index] | plane_bit;
                    row[index] = value;
                }
            }
            proof {
                if b < 7 {
                    assert((plane_byte << 1u8) == byte << ((shift + 1) as u8)) by (bit_vector)
                        requires
                            shift < 7,
                            plane_byte == byte << shift,
                    ;
                }
            }
            plane_byte = plane_byte << 1;
            b = b + 1;
        }
        offset = offset + 1;
    }
}

} // verus!
