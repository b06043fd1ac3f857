//! Decoder for interleaved-bitplane raster images held in a chunked container.
//!
//! The decoder walks the container's chunks, gathers the header, the color map, the
//! display mode and the resolution, and turns the bitplanes of the body into a flat
//! RGB buffer. Every function states what it computes over sequences of bytes.
use vstd::prelude::*;
use vstd::string::*;

pub mod body;
pub mod bytes;
pub mod compression;
pub mod files;
pub mod iff;
pub mod planes;
pub mod read;
pub mod resolve;
pub mod text;

use crate::iff::ChunkId;

verus! {

/// What a caller asks of one decode.
pub struct ReadOptions {
    /// When false only the metadata is gathered and the pixel buffer stays empty.
    pub read_pixels: bool,
    /// When true an image whose page is narrower than it is high is widened to twice
    /// its width.
    pub page_scale: bool,
}

/// The type `std::io::Error` of the standard library, declared so that
/// [`IlbmError::Io`] can carry the failure of whoever supplies the bytes. The verifier
/// takes it as opaque: nothing is claimed of what one holds, and nothing in this
/// library makes one or looks inside one.
#[verifier::external_type_specification]
#[verifier::external_body]
pub struct ExIoError(std::io::Error);

/// The ways in which reading an image fails.
#[derive(Debug)]
pub enum IlbmError {
    /// The header describes an image that cannot exist.
    InvalidHeader { expected: String, actual: String },
    /// Compressed data expands to something other than what was asked for.
    InvalidData(String),
    /// The input holds no image body.
    NoImage,
    /// The header declares no bitplanes.
    NoPlanes,
    /// The body comes before any header.
    NoHeader,
    /// A pixel names a color that the color map does not have.
    NoMapEntry { index: usize, map_size: usize },
    /// The input ends before the value being read.
    NoData,
    /// The image uses a combination of features that this decoder does not handle.
    NotSupported(String),
    /// The source of the bytes failed.
    Io { source: std::io::Error },
}

/// An [`IlbmError`] as a mathematical value: texts are sequences of characters.
pub enum IlbmErrorView {
    InvalidHeader { expected: Seq<char>, actual: Seq<char> },
    InvalidData(Seq<char>),
    NoImage,
    NoPlanes,
    NoHeader,
    NoMapEntry { index: usize, map_size: usize },
    NoData,
    NotSupported(Seq<char>),
    Io,
}

impl View for IlbmError {
    type V = IlbmErrorView;

    open spec fn view(&self) -> IlbmErrorView {
        match *self {
            IlbmError::InvalidHeader { expected, actual } => IlbmErrorView::InvalidHeader {
                expected: expected@,
                actual: actual@,
            },
            IlbmError::InvalidData(text) => IlbmErrorView::InvalidData(text@),
            IlbmError::NoImage => IlbmErrorView::NoImage,
            IlbmError::NoPlanes => IlbmErrorView::NoPlanes,
            IlbmError::NoHeader => IlbmErrorView::NoHeader,
            IlbmError::NoMapEntry { index, map_size } => IlbmErrorView::NoMapEntry {
                index,
                map_size,
            },
            IlbmError::NoData => IlbmErrorView::NoData,
            IlbmError::NotSupported(text) => IlbmErrorView::NotSupported(text@),
            IlbmError::Io { source } => IlbmErrorView::Io,
        }
    }
}

/// How an image marks the pixels that are not part of the picture.
#[derive(Debug, Clone, Copy, PartialEq, Eq, Structural)]
pub enum Masking {
    NoMask,
    HasMask,
    HasTransparentColor,
    Lasso,
}

impl Default for Masking {
    fn default() -> (m: Masking)
        ensures
            m == Masking::NoMask,
    {
        Masking::NoMask
    }
}

/// The masking that a header's masking byte stands for; an unknown value stands for none.
pub open spec fn masking_of(v: u8) -> Masking {
    if v == 1 {
        Masking::HasMask
    } else if v == 2 {
        Masking::HasTransparentColor
    } else if v == 3 {
        Masking::Lasso
    } else {
        Masking::NoMask
    }
}

/// Reads a header's masking byte.
pub fn as_masking(v: u8) -> (m: Masking)
    ensures
        m == masking_of(v),
{
    match v {
        0 => Masking::NoMask,
        1 => Masking::HasMask,
        2 => Masking::HasTransparentColor,
        3 => Masking::Lasso,
        _ => Masking::NoMask,
    }
}

/// The display mode word of the machine the image was made for. Two of its bits
/// choose how pixel values become colors.
#[derive(Copy, Debug, Clone)]
pub struct DisplayMode(pub u32);

impl DisplayMode {
    /// Whether the mode word selects hold-and-modify decoding.
    pub open spec fn ham_bit(self) -> bool {
        self.0 & 0x800 != 0
    }

    /// Whether the mode word selects half-brightness decoding.
    pub open spec fn halfbrite_bit(self) -> bool {
        self.0 & 0x80 != 0
    }

    /// Whether the mode is hold-and-modify.
    pub fn is_ham(&self) -> (b: bool)
        ensures
            b == self.ham_bit(),
    {
        self.0 & 0x800 != 0
    }

    /// Whether the mode is half-brightness.
    pub fn is_halfbrite(&self) -> (b: bool)
        ensures
            b == self.halfbrite_bit(),
    {
        self.0 & 0x80 != 0
    }

    /// The display mode with the mode word `mode`.
    pub fn new(mode: u32) -> (m: DisplayMode)
        ensures
            m.0 == mode,
    {
        DisplayMode(mode)
    }

    /// The mode as text: the mode word in hexadecimal behind `0x`, followed by ` HAM`
    /// in hold-and-modify mode, else by ` HALF` in half-brightness mode.
    pub open spec fn text(self) -> Seq<char> {
        "0x"@ + text::hex(self.0 as nat) + if self.ham_bit() {
            " HAM"@
        } else if self.halfbrite_bit() {
            " HALF"@
        } else {
            Seq::empty()
        }
    }

    /// Writes the mode as text.
    pub fn to_text(&self) -> (s: String)
        ensures
            s@ == self.text(),
    {
        let mut s: String = String::from_str("0x");
        let word: String = text::hex_text(self.0);
        s.append(word.as_str());
        if self.is_ham() {
            s.append(" HAM");
        } else if self.is_halfbrite() {
            s.append(" HALF");
        }
        s
    }

    /// The mode word with only the hold-and-modify bit set.
    pub fn ham() -> (m: DisplayMode)
        ensures
            m.0 == 0x800,
            m.ham_bit(),
            !m.halfbrite_bit(),
    {
        assert(0x800u32 & 0x800 != 0) by (bit_vector);
        assert(0x800u32 & 0x80 == 0) by (bit_vector);
        DisplayMode(0x800)
    }
}

impl Default for DisplayMode {
    fn default() -> (m: DisplayMode)
        ensures
            m.0 == 0,
    {
        DisplayMode(0)
    }
}

/// One color: red, green, blue.
#[derive(Copy, Debug, Clone)]
pub struct RgbValue(pub u8, pub u8, pub u8);

impl Default for RgbValue {
    fn default() -> (c: RgbValue)
        ensures
            c == RgbValue(0, 0, 0),
    {
        RgbValue(0, 0, 0)
    }
}

/// A width and a height.
#[derive(Debug, Copy, Clone)]
pub struct Size2D(pub usize, pub usize);

impl Size2D {
    /// The width, which comes first.
    pub fn width(&self) -> (w: usize)
        ensures
            w == self.0,
    {
        self.0
    }

    /// The height, which comes second.
    pub fn height(&self) -> (h: usize)
        ensures
            h == self.1,
    {
        self.1
    }

    /// The size as text: the width in decimal, the letter `x`, the height in decimal.
    pub fn to_text(&self) -> (s: String)
        ensures
            s@ == text::size_text(self.0 as nat, self.1 as nat),
    {
        let mut s: String = text::decimal_text(self.0);
        s.append("x");
        let h: String = text::decimal_text(self.1);
        s.append(h.as_str());
        s
    }
}

impl Default for Size2D {
    fn default() -> (s: Size2D)
        ensures
            s == Size2D(0, 0),
    {
        Size2D(0, 0)
    }
}

/// The colors that pixel values select, in the order of their index.
#[derive(Debug, Clone)]
pub struct ColorMap {
    pub colors: Vec<RgbValue>,
}

/// A decoded image: what the container's chunks say about it, and its pixels.
#[derive(Debug)]
pub struct IlbmImage {
    pub form_type: ChunkId,
    pub size: Size2D,
    pub map_size: usize,
    /// The tag of every chunk met inside the image's container, in order.
    pub chunk_types: Vec<ChunkId>,
    pub planes: usize,
    pub masking: Masking,
    pub compression: bool,
    pub display_mode: DisplayMode,
    pub dpi: Size2D,
    pub pixel_aspect: Size2D,
    /// The index of the color that stands for transparent.
    pub transparent_color: usize,
    pub page_size: Size2D,
    /// Three bytes for each pixel, red, green, blue; rows from the top, each from the left.
    pub pixels: Vec<u8>,
}

/// An [`IlbmImage`] as a mathematical value.
pub struct IlbmImageView {
    pub form_type: ChunkId,
    pub size: Size2D,
    pub map_size: usize,
    pub chunk_types: Seq<ChunkId>,
    pub planes: usize,
    pub masking: Masking,
    pub compression: bool,
    pub display_mode: DisplayMode,
    pub dpi: Size2D,
    pub pixel_aspect: Size2D,
    pub transparent_color: usize,
    pub page_size: Size2D,
    pub pixels: Seq<u8>,
}

impl View for IlbmImage {
    type V = IlbmImageView;

    open spec fn view(&self) -> IlbmImageView {
        IlbmImageView {
            form_type: self.form_type,
            size: self.size,
            map_size: self.map_size,
            chunk_types: self.chunk_types@,
            planes: self.planes,
            masking: self.masking,
            compression: self.compression,
            display_mode: self.display_mode,
            dpi: self.dpi,
            pixel_aspect: self.pixel_aspect,
            transparent_color: self.transparent_color,
            page_size: self.page_size,
            pixels: self.pixels@,
        }
    }
}

/// The image before anything is known of it: no size, no planes, no pixels, and the
/// tag `????` for its kind.
pub open spec fn blank_image() -> IlbmImageView {
    IlbmImageView {
        form_type: iff::unknown_id(),
        size: Size2D(0, 0),
        map_size: 0,
        chunk_types: Seq::empty(),
        planes: 0,
        masking: Masking::NoMask,
        compression: false,
        display_mode: DisplayMode(0),
        dpi: Size2D(0, 0),
        pixel_aspect: Size2D(0, 0),
        transparent_color: 0,
        page_size: Size2D(0, 0),
        pixels: Seq::empty(),
    }
}

impl Default for IlbmImage {
    fn default() -> (image: IlbmImage)
        ensures
            image@ == blank_image(),
    {
        IlbmImage {
            form_type: ChunkId::default(),
            size: Size2D(0, 0),
            map_size: 0,
            chunk_types: Vec::new(),
            planes: 0,
            masking: Masking::NoMask,
            compression: false,
            display_mode: DisplayMode(0),
            dpi: Size2D(0, 0),
            pixel_aspect: Size2D(0, 0),
            transparent_color: 0,
            page_size: Size2D(0, 0),
            pixels: Vec::new(),
        }
    }
}

/// Reads the first image that the bytes of a file hold: the image with its pixels and
/// what its chunks say of it, or why there is none.
pub fn read_from_bytes(bytes: &[u8], options: ReadOptions) -> (r: Result<IlbmImage, IlbmError>)
    ensures
        read::decodes_to(r, read::decoded(bytes@, options)),
{
    read::read_bytes(bytes, options)
}

} // verus!
