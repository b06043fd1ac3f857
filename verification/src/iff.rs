//! The chunked container: tagged, length-prefixed blocks of bytes.
//!
//! A chunk is a four-byte tag, a big-endian length of four bytes, and that many bytes
//! of payload. Chunks start at even offsets: behind a payload of odd length lies one
//! padding byte, which belongs to no chunk. A container chunk holds a four-byte kind
//! and, behind it, chunks of its own.
use vstd::prelude::*;

use crate::bytes::{be32, BigEndian};

verus! {

/// The four-byte tag that names a chunk's kind. Two tags are equal when all four
/// bytes are; letter case counts.
#[derive(Eq, Copy, Clone, Debug)]
pub struct ChunkId(pub [u8; 4]);

impl PartialEq for ChunkId {
    fn eq(&self, other: &ChunkId) -> (r: bool) {
        self.0[0] == other.0[0] && self.0[1] == other.0[1] && self.0[2] == other.0[2] && self.0[3]
            == other.0[3]
    }
}

impl vstd::std_specs::cmp::PartialEqSpecImpl for ChunkId {
    open spec fn obeys_eq_spec() -> bool {
        true
    }

    open spec fn eq_spec(&self, other: &ChunkId) -> bool {
        self.0[0] == other.0[0] && self.0[1] == other.0[1] && self.0[2] == other.0[2] && self.0[3]
            == other.0[3]
    }
}

/// The tag made of the first four bytes of `s`.
pub open spec fn tag_of(s: Seq<u8>) -> ChunkId
    recommends
        s.len() >= 4,
{
    ChunkId([s[0], s[1], s[2], s[3]])
}

/// The tag `????`, which stands for a kind that is not known.
pub open spec fn unknown_id() -> ChunkId {
    ChunkId([0x3f, 0x3f, 0x3f, 0x3f])
}

/// The tag `FORM`, which marks a container.
pub open spec fn form_id() -> ChunkId {
    ChunkId([0x46, 0x4f, 0x52, 0x4d])
}

impl ChunkId {
    /// The tag made of the four bytes of `id`.
    pub fn new(id: &[u8; 4]) -> (r: ChunkId)
        ensures
            r.0 == *id,
    {
        ChunkId(*id)
    }

    /// Whether the tag is made of the four bytes of `tag`.
    pub fn is(&self, tag: &[u8; 4]) -> (b: bool)
        ensures
            b == (self.0 == *tag),
    {
        let b: bool = self.0[0] == tag[0] && self.0[1] == tag[1] && self.0[2] == tag[2]
            && self.0[3] == tag[3];
        assert(self.0 =~= *tag <==> b);
        b
    }
}

impl Default for ChunkId {
    fn default() -> (id: ChunkId)
        ensures
            id == unknown_id(),
    {
        ChunkId([0x3f, 0x3f, 0x3f, 0x3f])
    }
}

/// The tag of a chunk together with its payload, as a mathematical value.
pub struct ChunkView {
    pub id: ChunkId,
    pub data: Seq<u8>,
}

impl ChunkView {
    /// Whether the chunk is a container.
    pub open spec fn is_form(self) -> bool {
        self.id == form_id()
    }

    /// Whether the chunk is a container whose kind is the four bytes of `kind`.
    pub open spec fn is_form_type(self, kind: [u8; 4]) -> bool {
        self.is_form() && self.data.len() >= 4 && self.data.subrange(0, 4) == kind@
    }
}

/// What one read of a chunk gives: the chunk, the input behind it, and whether a
/// padding byte is still to be passed over.
pub struct ChunkRead {
    pub chunk: ChunkView,
    pub rest: Seq<u8>,
    pub pad_due: bool,
}

/// The chunk at the front of `input`, behind one padding byte when `pad_due`, or
/// nothing when the input ends before the chunk does.
#[verifier::opaque]
pub open spec fn next_chunk(input: Seq<u8>, pad_due: bool) -> Option<ChunkRead> {
    let start: int = if pad_due {
        1
    } else {
        0
    };
    if input.len() < start + 8 {
        None
    } else {
        let len = be32(input.subrange(start + 4, start + 8));
        if input.len() < start + 8 + len {
            None
        } else {
            Some(
                ChunkRead {
                    chunk: ChunkView {
                        id: tag_of(input.subrange(start, start + 4)),
                        data: input.subrange(start + 8, start + 8 + len),
                    },
                    rest: input.skip(start + 8 + len),
                    pad_due: len % 2 == 1,
                },
            )
        }
    }
}

/// All the chunks that can be read from `input` one after the other. A chunk that
/// the end of the input cuts short is not among them.
pub open spec fn chunks(input: Seq<u8>, pad_due: bool) -> Seq<ChunkView>
    decreases input.len(),
{
    match next_chunk(input, pad_due) {
        None => Seq::empty(),
        Some(read) => {
            proof {
                reveal(next_chunk);
            }
            seq![read.chunk] + chunks(read.rest, read.pad_due)
        },
    }
}

/// Reads chunks from a run of bytes, front to back.
pub struct IffReader<'a> {
    reader: &'a [u8],
    skip: bool,
}

impl<'a> IffReader<'a> {
    /// The bytes that have not been read yet.
    pub closed spec fn input(&self) -> Seq<u8> {
        self.reader@
    }

    /// Whether the chunk read last had an odd length, so that a padding byte comes
    /// before the next chunk.
    pub closed spec fn pad_due(&self) -> bool {
        self.skip
    }

    /// A reader at the front of `reader`.
    pub fn new(reader: &'a [u8]) -> (r: IffReader<'a>)
        ensures
            r.input() == reader@,
            !r.pad_due(),
    {
        IffReader { reader, skip: false }
    }

    /// Reads the next chunk. When the input ends before the chunk does there is no
    /// chunk, and none on any later call.
    pub fn next(&mut self) -> (r: Option<IffChunk>)
        ensures
            match next_chunk(old(self).input(), old(self).pad_due()) {
                Some(read) => r matches Some(chunk) && chunk@ == read.chunk && final(self).input()
                    == read.rest && final(self).pad_due() == read.pad_due,
                None => r is None && final(self).input() == Seq::<u8>::empty()
                    && !final(self).pad_due(),
            },
    {
        reveal(next_chunk);
        let ghost input = self.reader@;
        let ghost start: int = if self.skip {
            1
        } else {
            0
        };
        let mut data: &[u8] = self.reader;
        let (_, end) = data.split_at(data.len());
        self.reader = end;
        let pad_due: bool = self.skip;
        self.skip = false;
        if pad_due {
            if data.get_u8().is_err() {
                return None;
            }
        }
        if data.len() < 4 {
            return None;
        }
        let (id, behind) = data.split_at(4);
        data = behind;
        let ck_id: ChunkId = ChunkId([id[0], id[1], id[2], id[3]]);
        let len: usize = match data.get_u32() {
            Ok(len) => len as usize,
            Err(_) => {
                return None;
            },
        };
        assert(len == be32(input.subrange(start + 4, start + 8)));
        if data.len() < len {
            return None;
        }
        let (payload, rest) = data.split_at(len);
        let mut data: Vec<u8> = Vec::new();
        data.extend_from_slice(payload);
        assert(data@ == input.subrange(start + 8, start + 8 + len));
        self.reader = rest;

        // Behind a payload of odd length lies a padding byte, which the next read
        // has to pass over.
        self.skip = len & 1 != 0;
        assert((len & 1 != 0) == (len % 2 == 1)) by (bit_vector);
        Some(IffChunk { ck_id, data })
    }
}

/// One chunk: its tag and its payload.
pub struct IffChunk {
    ck_id: ChunkId,
    data: Vec<u8>,
}

impl View for IffChunk {
    type V = ChunkView;

    closed spec fn view(&self) -> ChunkView {
        ChunkView { id: self.ck_id, data: self.data@ }
    }
}

impl IffChunk {
    /// The tag of the chunk.
    pub fn id(&self) -> (id: ChunkId)
        ensures
            id == self@.id,
    {
        self.ck_id
    }

    /// The payload of the chunk.
    pub fn data(&self) -> (data: &[u8])
        ensures
            data@ == self@.data,
    {
        self.data.as_slice()
    }

    /// Whether the chunk is a container.
    pub fn is_form(&self) -> (b: bool)
        ensures
            b == self@.is_form(),
    {
        self.ck_id.is(&[0x46, 0x4f, 0x52, 0x4d])
    }

    /// Whether the chunk is a container of the kind `form_type`.
    pub fn is_form_type(&self, form_type: &[u8; 4]) -> (b: bool)
        ensures
            b == self@.is_form_type(*form_type),
    {
        if !self.is_form() || self.data.len() < 4 {
            return false;
        }
        let same: bool = form_type[0] == self.data[0] && form_type[1] == self.data[1]
            && form_type[2] == self.data[2] && form_type[3] == self.data[3];
        assert(self@.data.subrange(0, 4) =~= form_type@ <==> same);
        same
    }

    /// The kind of a container: the first four bytes of its payload.
    pub fn form_type(&self) -> (kind: ChunkId)
        requires
            self@.is_form(),
            self@.data.len() >= 4,
        ensures
            kind == tag_of(self@.data),
            kind.0@ == self@.data.subrange(0, 4),
    {
        ChunkId([self.data[0], self.data[1], self.data[2], self.data[3]])
    }

    /// A reader of the chunks inside a container, which lie behind its kind.
    pub fn sub_chunks(&self) -> (r: IffReader<'_>)
        requires
            self@.data.len() >= 4,
        ensures
            r.input() == self@.data.skip(4),
            !r.pad_due(),
    {
        let (_, inner) = self.data.as_slice().split_at(4);
        IffReader::new(inner)
    }
}

/// A chunk that was read leaves less input than there was.
pub proof fn lemma_next_chunk_shorter(input: Seq<u8>, pad_due: bool)
    ensures
        next_chunk(input, pad_due) matches Some(read) ==> read.rest.len() < input.len(),
{
    reveal(next_chunk);
}

/// The chunks of an input are the chunk read first and the chunks of what is left;
/// an input from which no chunk can be read has none.
pub proof fn lemma_chunks_first(input: Seq<u8>, pad_due: bool)
    ensures
        match next_chunk(input, pad_due) {
            None => chunks(input, pad_due).len() == 0,
            Some(read) => chunks(input, pad_due).len() > 0 && chunks(input, pad_due)[0]
                == read.chunk && chunks(input, pad_due).skip(1) == chunks(
                read.rest,
                read.pad_due,
            ),
        },
{
}

/// The four bytes that hold the number `n`, most significant first.
#[verifier::opaque]
pub open spec fn be32_bytes(n: nat) -> Seq<u8> {
    seq![
        (n / 16777216) as u8,
        (n / 65536 % 256) as u8,
        (n / 256 % 256) as u8,
        (n % 256) as u8,
    ]
}

/// The bytes of a container that holds `list`, chunk by chunk: tag, length, payload
/// and, behind a payload of odd length, the byte `pad`.
pub open spec fn encoded_chunks(list: Seq<ChunkView>, pad: u8) -> Seq<u8>
    decreases list.len(),
{
    if list.len() == 0 {
        Seq::empty()
    } else {
        list[0].id.0@ + be32_bytes(list[0].data.len()) + list[0].data + padding_due(
            list[0].data.len() % 2 == 1,
            pad,
        ) + encoded_chunks(list.skip(1), pad)
    }
}

/// Whether the length of every payload fits the four bytes that a chunk has for it.
pub open spec fn lengths_fit(list: Seq<ChunkView>) -> bool {
    forall|i: int| 0 <= i < list.len() ==> (#[trigger] list[i]).data.len() <= u32::MAX
}

/// Four bytes written for a number hold that number.
pub proof fn lemma_be32_round_trip(n: nat)
    requires
        n <= u32::MAX,
    ensures
        be32_bytes(n).len() == 4,
        be32(be32_bytes(n)) == n,
{
    reveal(be32_bytes);
}

/// Reading the bytes of one chunk gives that chunk, and leaves what lies behind its
/// payload.
pub proof fn lemma_next_chunk_written(chunk: ChunkView, lead: Seq<u8>, behind: Seq<u8>)
    requires
        chunk.data.len() <= u32::MAX,
        lead.len() <= 1,
    ensures
        next_chunk(
            lead + chunk.id.0@ + be32_bytes(chunk.data.len()) + chunk.data + behind,
            lead.len() == 1,
        ) == Some(
            ChunkRead { chunk, rest: behind, pad_due: chunk.data.len() % 2 == 1 },
        ),
{
    reveal(next_chunk);
    let len = chunk.data.len();
    let start = lead.len() as int;
    let input = lead + chunk.id.0@ + be32_bytes(len) + chunk.data + behind;
    lemma_be32_round_trip(len);
    assert(tag_of(chunk.id.0@).0 =~= chunk.id.0);
    assert(input.subrange(start + 8, start + 8 + len) =~= chunk.data);
    assert(input.skip(start + 8 + len) =~= behind);
}

/// Whether a padding byte is due behind the chunks of `list`, when `pad_due` says
/// whether one was due before them.
pub open spec fn pad_due_behind(list: Seq<ChunkView>, pad_due: bool) -> bool {
    if list.len() == 0 {
        pad_due
    } else {
        list.last().data.len() % 2 == 1
    }
}

/// The padding byte `pad` where one is due.
pub open spec fn padding_due(pad_due: bool, pad: u8) -> Seq<u8> {
    if pad_due {
        seq![pad]
    } else {
        Seq::empty()
    }
}

/// Reading finds the chunks that were written, whether or not a padding byte lies
/// before the first of them, and goes on with whatever follows them.
pub proof fn lemma_chunks_followed(
    list: Seq<ChunkView>,
    pad: u8,
    pad_due: bool,
    following: Seq<u8>,
)
    requires
        lengths_fit(list),
    ensures
        chunks(padding_due(pad_due, pad) + encoded_chunks(list, pad) + following, pad_due)
            == list + chunks(
            padding_due(pad_due_behind(list, pad_due), pad) + following,
            pad_due_behind(list, pad_due),
        ),
    decreases list.len(),
{
    let lead = padding_due(pad_due, pad);
    let input = lead + encoded_chunks(list, pad) + following;
    if list.len() > 0 {
        let first = list[0];
        let tail = list.skip(1);
        let len = first.data.len();
        let odd = len % 2 == 1;
        let behind = padding_due(odd, pad) + encoded_chunks(tail, pad) + following;
        assert(input =~= lead + first.id.0@ + be32_bytes(len) + first.data + behind);
        lemma_next_chunk_written(first, lead, behind);
        lemma_chunks_followed(tail, pad, odd, following);
        assert(pad_due_behind(tail, odd) == pad_due_behind(list, pad_due));
    }
}

/// Reading a container finds the chunks that were written into it: the same tags and
/// the same payloads in the same order, whatever the lengths of the payloads.
pub proof fn lemma_chunks_round_trip(list: Seq<ChunkView>, pad: u8)
    requires
        lengths_fit(list),
    ensures
        chunks(encoded_chunks(list, pad), false) == list,
{
    let due = pad_due_behind(list, false);
    lemma_chunks_followed(list, pad, false, Seq::empty());
    assert(next_chunk(padding_due(due, pad) + Seq::<u8>::empty(), due) is None) by {
        reveal(next_chunk);
    }
}

/// A chunk that the end of the input cuts short is dropped: reading finds the chunks
/// that were written whole before it, and no more. Here the input holds, behind the
/// chunks of `list`, only the first `cut` bytes of the chunk `last`.
pub proof fn lemma_chunks_cut_short(list: Seq<ChunkView>, last: ChunkView, cut: nat, pad: u8)
    requires
        lengths_fit(list),
        last.data.len() <= u32::MAX,
        cut < 8 + last.data.len(),
    ensures
        chunks(
            encoded_chunks(list, pad) + (last.id.0@ + be32_bytes(last.data.len())
                + last.data).take(cut as int),
            false,
        ) == list,
{
    let whole = last.id.0@ + be32_bytes(last.data.len()) + last.data;
    let part = whole.take(cut as int);
    let due = pad_due_behind(list, false);
    let lead = padding_due(due, pad);
    lemma_chunks_followed(list, pad, false, part);
    lemma_be32_round_trip(last.data.len());
    assert(next_chunk(lead + part, due) is None) by {
        reveal(next_chunk);
    }
}

} // verus!
