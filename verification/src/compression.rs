//! The run-length code of compressed image rows.
//!
//! A compressed stream is a series of runs. Each run starts with a control byte, read
//! as a signed number `n`:
//!
//! * `0 ..= 127`: the next `n + 1` bytes stand for themselves;
//! * `-127 ..= -1`: the next byte stands for `1 - n` copies of itself;
//! * `-128`: the run is empty.
use vstd::prelude::*;

use crate::bytes::{signed8, BigEndian};
use crate::text::{overrun_message, overrun_text};
use crate::{IlbmError, IlbmErrorView};

verus! {

/// What decoding runs from the front of `input` gives, when `out` has been produced
/// so far and `width` bytes are wanted.
///
/// Runs are decoded until at least `width` bytes are there. With exactly `width` the
/// result is the input that is left and the bytes produced. A last run that goes past
/// `width` is an error of invalid data; input that ends before a control byte or
/// inside a run is an error of missing data.
pub open spec fn unpack_from(input: Seq<u8>, out: Seq<u8>, width: nat) -> Result<
    (Seq<u8>, Seq<u8>),
    IlbmErrorView,
>
    decreases input.len(),
{
    if out.len() == width {
        Ok((input, out))
    } else if out.len() > width {
        Err(IlbmErrorView::InvalidData(overrun_text(width, out.len())))
    } else if input.len() == 0 {
        Err(IlbmErrorView::NoData)
    } else {
        let n = signed8(input[0]);
        if n >= 0 {
            if input.len() < n + 2 {
                Err(IlbmErrorView::NoData)
            } else {
                unpack_from(input.skip(n + 2), out + input.subrange(1, n + 2), width)
            }
        } else if n != -128 {
            if input.len() < 2 {
                Err(IlbmErrorView::NoData)
            } else {
                unpack_from(
                    input.skip(2),
                    out + Seq::new((1 - n) as nat, |i: int| input[1]),
                    width,
                )
            }
        } else {
            unpack_from(input.skip(1), out, width)
        }
    }
}

/// What decompressing `input` to `width` bytes gives: the input left over and the
/// bytes produced, or the error.
pub open spec fn unpacked(input: Seq<u8>, width: nat) -> Result<
    (Seq<u8>, Seq<u8>),
    IlbmErrorView,
> {
    unpack_from(input, Seq::empty(), width)
}

/// Decompresses the front of `input` to exactly `byte_width` bytes, and returns the
/// input that is left together with the bytes.
pub fn unpacker(input: &[u8], byte_width: usize) -> (r: Result<(&[u8], Vec<u8>), IlbmError>)
    ensures
        match r {
            Ok((rest, bytes)) => unpacked(input@, byte_width as nat) == Ok::<
                (Seq<u8>, Seq<u8>),
                IlbmErrorView,
            >((rest@, bytes@)),
            Err(e) => unpacked(input@, byte_width as nat) == Err::<
                (Seq<u8>, Seq<u8>),
                IlbmErrorView,
            >(e@),
        },
{
    let mut data: &[u8] = input;
    let mut unpacked: Vec<u8> = Vec::new();

    while unpacked.len() < byte_width
        invariant
            unpack_from(data@, unpacked@, byte_width as nat) == self::unpacked(
                input@,
                byte_width as nat,
            ),
        decreases data@.len(),
    {
        let ghost start = data@;
        let ghost before = unpacked@;
        let n: i16 = data.get_i8()? as i16;

        if n >= 0 {
            let mut i: i16 = 0;
            while i < n + 1
                invariant
                    0 <= i <= n + 1,
                    0 <= n <= 127,
                    start.len() >= 1,
                    n == signed8(start[0]),
                    before.len() < byte_width,
                    start.len() >= 1 + i,
                    data@ == start.skip(1 + i),
                    unpacked@ == before + start.subrange(1, 1 + i),
                    unpack_from(start, before, byte_width as nat) == self::unpacked(
                        input@,
                        byte_width as nat,
                    ),
                decreases n + 1 - i,
            {
                unpacked.push(data.get_u8()?);
                i = i + 1;
            }
        } else if n != -128 {
            let b: u8 = data.get_u8()?;
            let mut i: i16 = 0;
            while i < -n + 1
                invariant
                    0 <= i <= -n + 1,
                    -127 <= n <= -1,
                    unpacked@ == before + Seq::new(i as nat, |j: int| b),
                decreases -n + 1 - i,
            {
                unpacked.push(b);
                i = i + 1;
            }
            assert(data@ == start.skip(2));
        }
    }

    if unpacked.len() != byte_width {
        Err(IlbmError::InvalidData(overrun_message(byte_width, unpacked.len())))
    } else {
        Ok((data, unpacked))
    }
}

/// Decompression that succeeds gives as many bytes as were asked for.
pub proof fn lemma_unpacked_len(input: Seq<u8>, out: Seq<u8>, width: nat)
    ensures
        unpack_from(input, out, width) matches Ok((_, bytes)) ==> bytes.len() == width,
    decreases input.len(),
{
    if out.len() < width && input.len() > 0 {
        let n = signed8(input[0]);
        if n >= 0 {
            if input.len() >= n + 2 {
                lemma_unpacked_len(input.skip(n + 2), out + input.subrange(1, n + 2), width);
            }
        } else if n != -128 {
            if input.len() >= 2 {
                lemma_unpacked_len(
                    input.skip(2),
                    out + Seq::new((1 - n) as nat, |i: int| input[1]),
                    width,
                );
            }
        } else {
            lemma_unpacked_len(input.skip(1), out, width);
        }
    }
}

/// One run of a compressed stream, as whoever writes the stream sees it.
pub enum Run {
    /// Bytes that stand for themselves: from 1 to 128 of them.
    Literal(Seq<u8>),
    /// A count from 2 to 128 and the byte that is repeated so often.
    Repeat(nat, u8),
    /// The control byte that stands for nothing.
    Empty,
}

impl Run {
    /// Whether the run can be written with one control byte.
    pub open spec fn valid(self) -> bool {
        match self {
            Run::Literal(bytes) => 1 <= bytes.len() <= 128,
            Run::Repeat(count, _) => 2 <= count <= 128,
            Run::Empty => true,
        }
    }

    /// The bytes of the run in the compressed stream.
    pub open spec fn encoded(self) -> Seq<u8> {
        match self {
            Run::Literal(bytes) => seq![(bytes.len() - 1) as u8] + bytes,
            Run::Repeat(count, byte) => seq![(257 - count) as u8, byte],
            Run::Empty => seq![128u8],
        }
    }

    /// The bytes that the run stands for.
    pub open spec fn expanded(self) -> Seq<u8> {
        match self {
            Run::Literal(bytes) => bytes,
            Run::Repeat(count, byte) => Seq::new(count, |i: int| byte),
            Run::Empty => Seq::empty(),
        }
    }
}

/// Whether each of the runs can be written with one control byte.
pub open spec fn runs_valid(runs: Seq<Run>) -> bool {
    forall|i: int| 0 <= i < runs.len() ==> (#[trigger] runs[i]).valid()
}

/// The compressed stream that holds the runs one after the other.
pub open spec fn encoded_runs(runs: Seq<Run>) -> Seq<u8>
    decreases runs.len(),
{
    if runs.len() == 0 {
        Seq::empty()
    } else {
        runs[0].encoded() + encoded_runs(runs.skip(1))
    }
}

/// The bytes that the runs stand for, one run after the other.
pub open spec fn expanded_runs(runs: Seq<Run>) -> Seq<u8>
    decreases runs.len(),
{
    if runs.len() == 0 {
        Seq::empty()
    } else {
        runs[0].expanded() + expanded_runs(runs.skip(1))
    }
}

/// Whether `out` and the runs before any one run stay short of `width`: decoding that
/// has `out` and wants `width` bytes does not stop before the last of the runs.
pub open spec fn runs_needed(runs: Seq<Run>, out: Seq<u8>, width: nat) -> bool {
    forall|k: int|
        0 <= k < runs.len() ==> out.len() + (#[trigger] expanded_runs(runs.take(k))).len() < width
}

/// Decoding takes valid runs off the front of the input one by one, as long as the
/// bytes wanted are not yet there before each: what is left to decode is the input
/// behind the runs, with what the runs stand for added to the bytes produced.
pub proof fn lemma_unpack_from_runs(runs: Seq<Run>, rest: Seq<u8>, out: Seq<u8>, width: nat)
    requires
        runs_valid(runs),
        runs_needed(runs, out, width),
    ensures
        unpack_from(encoded_runs(runs) + rest, out, width) == unpack_from(
            rest,
            out + expanded_runs(runs),
            width,
        ),
    decreases runs.len(),
{
    if runs.len() > 0 {
        let first = runs[0];
        let tail = runs.skip(1);
        let input = encoded_runs(runs) + rest;
        let more = out + first.expanded();
        assert(expanded_runs(runs.take(0)).len() == 0);
        assert forall|k: int| 0 <= k < tail.len() implies more.len() + (#[trigger] expanded_runs(
            tail.take(k),
        )).len() < width by {
            let front = runs.take(k + 1);
            assert(front.skip(1) == tail.take(k));
            assert(expanded_runs(front) == first.expanded() + expanded_runs(tail.take(k)));
        }
        lemma_unpack_from_runs(tail, rest, more, width);
        assert(more + expanded_runs(tail) == out + expanded_runs(runs));
        match first {
            Run::Literal(bytes) => {
                let n = bytes.len() - 1;
                assert(input.skip(n + 2) == encoded_runs(tail) + rest);
                assert(input.subrange(1, n + 2) == bytes);
            },
            Run::Repeat(count, byte) => {
                assert(input.skip(2) == encoded_runs(tail) + rest);
            },
            Run::Empty => {
                assert(input.skip(1) == encoded_runs(tail) + rest);
            },
        }
    }
}

/// The runs before any one run stand for no more bytes than all of the runs.
pub proof fn lemma_expanded_prefix(runs: Seq<Run>, k: int)
    requires
        0 <= k <= runs.len(),
    ensures
        expanded_runs(runs.take(k)).len() <= expanded_runs(runs).len(),
    decreases runs.len(),
{
    if k > 0 {
        let front = runs.take(k);
        assert(front.skip(1) == runs.skip(1).take(k - 1));
        lemma_expanded_prefix(runs.skip(1), k - 1);
    }
}

/// A stream of valid runs that stand for exactly `width` bytes, none of them needless,
/// decompresses to those bytes, and whatever follows the runs is left over.
pub proof fn lemma_unpack_exact(runs: Seq<Run>, rest: Seq<u8>, width: nat)
    requires
        runs_valid(runs),
        runs_needed(runs, Seq::empty(), width),
        expanded_runs(runs).len() == width,
    ensures
        unpacked(encoded_runs(runs) + rest, width) == Ok::<(Seq<u8>, Seq<u8>), IlbmErrorView>(
            (rest, expanded_runs(runs)),
        ),
{
    lemma_unpack_from_runs(runs, rest, Seq::empty(), width);
}

/// A stream of valid runs whose last run goes past `width` fails as invalid data, and
/// the error names both lengths.
pub proof fn lemma_unpack_overrun(runs: Seq<Run>, rest: Seq<u8>, width: nat)
    requires
        runs_valid(runs),
        runs_needed(runs, Seq::empty(), width),
        expanded_runs(runs).len() > width,
    ensures
        unpacked(encoded_runs(runs) + rest, width) == Err::<(Seq<u8>, Seq<u8>), IlbmErrorView>(
            IlbmErrorView::InvalidData(overrun_text(width, expanded_runs(runs).len())),
        ),
{
    lemma_unpack_from_runs(runs, rest, Seq::empty(), width);
}

/// A stream that ends before its runs stand for `width` bytes fails for want of data,
/// whether it ends between two runs or inside one: here it holds `runs` whole and only
/// the first `cut` bytes of the run `last`.
pub proof fn lemma_unpack_short(runs: Seq<Run>, last: Run, cut: nat, width: nat)
    requires
        runs_valid(runs),
        last.valid(),
        cut < last.encoded().len(),
        expanded_runs(runs).len() < width,
    ensures
        unpacked(encoded_runs(runs) + last.encoded().take(cut as int), width) == Err::<
            (Seq<u8>, Seq<u8>),
            IlbmErrorView,
        >(IlbmErrorView::NoData),
{
    let tail = last.encoded().take(cut as int);
    assert forall|k: int| 0 <= k < runs.len() implies (#[trigger] expanded_runs(
        runs.take(k),
    )).len() < width by {
        lemma_expanded_prefix(runs, k);
    }
    lemma_unpack_from_runs(runs, tail, Seq::empty(), width);
}

} // verus!
