//! The decoder as a state machine over plain values: what decompressing one chunk does.
use vstd::prelude::*;

use crate::bitstream::BitState;
use crate::block::{decode_element_spec, read_block_spec, Block, Decoded, Header, Kind};
use crate::tree::max_len;
use crate::window::{repeat_back, shift_in};
use crate::DecodeFailed;

verus! {

/// The block being decoded: the bytes it has left and in all, its type (1 verbatim,
/// 2 aligned offset, 3 uncompressed), the path lengths of its trees, and the repeated
/// offsets that an uncompressed block sets.
pub struct BlockState {
    pub remaining: nat,
    pub size: nat,
    pub kind: nat,
    pub aligned: Option<Seq<u8>>,
    pub main: Seq<u8>,
    pub length: Option<Seq<u8>>,
    pub r: Seq<u32>,
}

/// The block that a header starts.
pub open spec fn header_block(h: Header) -> BlockState {
    let coded = h.kind == 1 || h.kind == 2;
    BlockState {
        remaining: h.size,
        size: h.size,
        kind: h.kind,
        aligned: if h.kind == 2 {
            Some(h.aligned)
        } else {
            None
        },
        main: if coded {
            h.main
        } else {
            Seq::empty()
        },
        length: if coded && max_len(h.length) > 0 {
            Some(h.length)
        } else {
            None
        },
        r: if h.kind == 3 {
            h.r
        } else {
            Seq::empty()
        },
    }
}

/// The state of a block value.
pub open spec fn block_state(b: &Block) -> BlockState {
    BlockState {
        remaining: b.remaining as nat,
        size: b.size as nat,
        kind: match b.kind {
            Kind::Verbatim { .. } => 1,
            Kind::AlignedOffset { .. } => 2,
            Kind::Uncompressed { .. } => 3,
        },
        aligned: b.aligned_lengths(),
        main: b.main_lengths(),
        length: b.length_lengths(),
        r: match b.kind {
            Kind::Uncompressed { r } => r@,
            _ => Seq::empty(),
        },
    }
}

/// A block built from a header has the header's state.
pub proof fn lemma_header_block(b: &Block, h: Header)
    requires
        b.from_header(h),
    ensures
        block_state(b) == header_block(h),
{
    assert(block_state(b).main =~= header_block(h).main);
    assert(block_state(b).r =~= header_block(h).r);
}

/// Everything the decoder holds: its window (oldest byte first), the repeated offsets, the
/// current block, the path lengths it carries across blocks, and what is left of the chunk.
pub struct DecoderModel {
    pub window: Seq<u8>,
    pub r: Seq<u32>,
    pub block: BlockState,
    pub main: Seq<u8>,
    pub length: Seq<u8>,
    pub bits: BitState,
}

/// Skipping one raw byte, if there is one.
pub open spec fn skip_pad_byte(st: BitState) -> BitState {
    if st.rest.len() == 0 {
        st
    } else {
        BitState { pending: st.pending, rest: st.rest.skip(1) }
    }
}

/// Making sure a block is open: once the current block is done, the next header is read,
/// after a pad byte if the block done was uncompressed and of odd size.
#[verifier::opaque]
pub open spec fn next_block(m: DecoderModel, slots: nat) -> Result<DecoderModel, DecodeFailed> {
    if m.block.remaining > 0 {
        Ok(m)
    } else {
        let bits = if m.block.kind == 3 && m.block.size % 2 == 1 {
            skip_pad_byte(m.bits)
        } else {
            m.bits
        };
        match read_block_spec(bits, m.main, m.length, slots) {
            Err(e) => Err(e),
            Ok(h) => Ok(
                DecoderModel {
                    window: m.window,
                    r: m.r,
                    block: header_block(h),
                    main: h.main,
                    length: h.length,
                    bits: h.after,
                },
            ),
        }
    }
}

/// The decoder after `n` bytes of the open block were produced.
pub open spec fn produced(m: DecoderModel, window: Seq<u8>, r: Seq<u32>, bits: BitState, n: nat) -> DecoderModel {
    DecoderModel {
        window,
        r,
        block: BlockState { remaining: (m.block.remaining - n) as nat, ..m.block },
        main: m.main,
        length: m.length,
        bits,
    }
}

/// Decoding one element of the open block, when `needed` more bytes are asked for: an
/// uncompressed block copies as many raw bytes as it and the chunk have left (and sets its
/// repeated offsets); other blocks give a literal or a match. The element may produce no
/// more than `needed` bytes, nor more than the block has left, and a match may not reach
/// past the window. Gives the decoder after the element and the number of bytes produced.
#[verifier::opaque]
pub open spec fn element_step(m: DecoderModel, needed: nat) -> Result<(DecoderModel, nat), DecodeFailed> {
    let b = m.block;
    if b.kind == 3 {
        let avail = m.bits.rest.len();
        let len = if avail < b.remaining {
            avail
        } else {
            b.remaining
        };
        if len == 0 {
            Err(DecodeFailed::UnexpectedEof)
        } else if len > needed {
            Err(DecodeFailed::OverreadBlock)
        } else {
            let bits = BitState { pending: m.bits.pending, rest: m.bits.rest.skip(len as int) };
            Ok(
                (
                    produced(m, shift_in(m.window, m.bits.rest.take(len as int)), b.r, bits, len),
                    len,
                ),
            )
        }
    } else {
        match decode_element_spec(m.bits, m.r, b.aligned, b.main, b.length) {
            Err(e) => Err(e),
            Ok((Decoded::Single(v), r2, s2)) => Ok(
                (produced(m, shift_in(m.window, seq![v]), r2, s2, 1), 1),
            ),
            Ok((Decoded::Match { offset, length }, r2, s2)) => if offset > m.window.len() {
                Err(DecodeFailed::WindowTooSmall)
            } else if length > needed || length > b.remaining {
                Err(DecodeFailed::OverreadBlock)
            } else {
                Ok(
                    (
                        produced(
                            m,
                            repeat_back(m.window, offset as nat, length as nat),
                            r2,
                            s2,
                            length as nat,
                        ),
                        length as nat,
                    ),
                )
            },
            // Not an element of these blocks.
            Ok((Decoded::Read(_), _, _)) => Err(DecodeFailed::OverreadBlock),
        }
    }
}

/// Decoding elements until `needed` bytes are produced. Each element produces at least
/// one byte.
#[verifier::opaque]
pub open spec fn decode_run(m: DecoderModel, needed: nat, slots: nat) -> Result<
    DecoderModel,
    DecodeFailed,
>
    decreases needed,
{
    if needed == 0 {
        Ok(m)
    } else {
        match next_block(m, slots) {
            Err(e) => Err(e),
            Ok(m1) => match element_step(m1, needed) {
                Err(e) => Err(e),
                Ok((m2, n)) => if 0 < n <= needed {
                    decode_run(m2, (needed - n) as nat, slots)
                } else {
                    Ok(m2)
                },
            },
        }
    }
}

/// Decoding no bytes leaves the decoder as it is.
pub proof fn lemma_run_done(m: DecoderModel, slots: nat)
    ensures
        decode_run(m, 0, slots) == Ok::<DecoderModel, DecodeFailed>(m),
{
    reveal(decode_run);
}

/// Decoding `needed > 0` bytes is opening a block, decoding one element and decoding the
/// rest; it fails where either step fails.
pub proof fn lemma_run_step(m: DecoderModel, needed: nat, slots: nat)
    requires
        needed > 0,
    ensures
        next_block(m, slots) matches Err(e) ==> decode_run(m, needed, slots) == Err::<
            DecoderModel,
            DecodeFailed,
        >(e),
        next_block(m, slots) matches Ok(m1) ==> match element_step(m1, needed) {
            Err(e) => decode_run(m, needed, slots) == Err::<DecoderModel, DecodeFailed>(e),
            Ok((m2, n)) => 0 < n <= needed ==> decode_run(m, needed, slots) == decode_run(
                m2,
                (needed - n) as nat,
                slots,
            ),
        },
{
    reveal(decode_run);
}

/// An element appends the bytes it produced to the window.
pub proof fn lemma_element_window(m: DecoderModel, needed: nat)
    requires
        0 < needed <= m.window.len(),
    ensures
        element_step(m, needed) matches Ok((m2, n)) ==> {
            let l = m.window.len() as int;
            &&& m2.window.len() == l
            &&& m2.window == shift_in(m.window, m2.window.subrange(l - n, l))
        },
{
    reveal(element_step);
    let l = m.window.len() as int;
    if let Ok((m2, n)) = element_step(m, needed) {
        if m.block.kind == 3 {
            let s = m.bits.rest.take(n as int);
            assert(shift_in(m.window, s).subrange(l - n, l) =~= s);
        } else {
            match decode_element_spec(m.bits, m.r, m.block.aligned, m.block.main, m.block.length) {
                Ok((Decoded::Single(v), _, _)) => {
                    assert(shift_in(m.window, seq![v]).subrange(l - 1, l) =~= seq![v]);
                },
                Ok((Decoded::Match { offset, length }, _, _)) => {
                    crate::window::lemma_repeat_back_shift(m.window, offset as nat, length as nat);
                },
                _ => {},
            }
        }
    }
}

/// The stream header that comes with the first chunk: a bit that enables E8 translation,
/// and then a 32-bit translation size.
pub open spec fn read_stream_header(st: BitState) -> Option<(Option<i32>, BitState)> {
    match st.read(1) {
        None => None,
        Some((bit, s1)) => if bit != 0 {
            match s1.read(32) {
                None => None,
                Some((ts, s2)) => Some((Some((ts as u32) as i32), s2)),
            }
        } else {
            Some((None, s1))
        },
    }
}

} // verus!
