//! Blocks: their headers, and the decoding of one element of their body.
use vstd::arithmetic::power2::pow2;
use vstd::prelude::*;

use crate::bitstream::{BitState, Bitstream};
use crate::tree::{
    decode_spec, is_complete, max_len, read_lengths, read_path_lengths, update_range_spec, Tree,
};
use crate::{DecodeFailed, DecoderState};

verus! {

/// Number of extra offset bits that follow a match of the given position slot.
pub open spec fn footer_bits(ps: nat) -> nat {
    if ps < 4 {
        0
    } else if ps < 36 {
        ((ps - 2) / 2) as nat
    } else {
        17
    }
}

/// Smallest formatted offset of the given position slot: the previous slot's base plus the
/// number of offsets its footer bits can tell apart.
pub open spec fn base_position(ps: nat) -> nat
    decreases ps,
{
    if ps == 0 {
        0
    } else {
        base_position((ps - 1) as nat) + pow2(footer_bits((ps - 1) as nat))
    }
}

/// `base_position` in closed form.
spec fn base_closed(ps: nat) -> nat {
    if ps < 4 {
        ps
    } else if ps < 37 {
        if ps % 2 == 0 {
            pow2(ps / 2)
        } else {
            3 * pow2(((ps - 3) / 2) as nat)
        }
    } else {
        (393216 + (ps - 37) * 131072) as nat
    }
}

/// The bases of the position slots follow the closed form.
proof fn lemma_base_closed(ps: nat)
    ensures
        base_position(ps) == base_closed(ps),
    decreases ps,
{
    vstd::arithmetic::power2::lemma2_to64();
    vstd::arithmetic::power2::lemma2_to64_rest();
    if ps > 0 {
        lemma_base_closed((ps - 1) as nat);
        if 4 < ps < 37 {
            let h = ps / 2;
            if ps % 2 == 0 {
                // base(2h - 1) = 3 * 2^(h - 2), footer(2h - 1) = h - 2
                vstd::arithmetic::power2::lemma_pow2_adds((h - 2) as nat, 2);
            } else {
                // base(2h) = 2^h, footer(2h) = h - 1
                vstd::arithmetic::power2::lemma_pow2_adds((h - 1) as nat, 1);
            }
        }
    }
}

/// Number of extra offset bits of a position slot.
pub fn footer_bits_of(ps: u32) -> (r: u8)
    ensures
        r == footer_bits(ps as nat),
{
    if ps < 4 {
        0
    } else if ps < 36 {
        ((ps - 2) / 2) as u8
    } else {
        17
    }
}

/// Smallest formatted offset of a position slot.
pub fn base_position_of(ps: u32) -> (r: u32)
    requires
        ps < 290,
    ensures
        r == base_position(ps as nat),
        r <= 33423360,
{
    proof {
        lemma_base_closed(ps as nat);
        vstd::arithmetic::power2::lemma2_to64();
    }
    if ps < 4 {
        ps
    } else if ps < 37 {
        let h = ps / 2;
        if ps % 2 == 0 {
            proof {
                crate::bitstream::lemma_pow2_le(h as nat, 18);
                vstd::bits::lemma_u32_shl_is_mul(1, h);
            }
            1u32 << h
        } else {
            proof {
                crate::bitstream::lemma_pow2_le((h - 1) as nat, 17);
                vstd::bits::lemma_u32_shl_is_mul(3, (h - 1) as u32);
            }
            3u32 << (h - 1)
        }
    } else {
        393216 + (ps - 37) * 131072
    }
}

/// The slots' bases follow each other by the number of offsets that the previous slot's
/// footer bits can tell apart. `base_position_of` computes them in closed form.
pub proof fn lemma_base_position_step(ps: nat)
    requires
        1 <= ps < 290,
    ensures
        base_position(ps) == base_position((ps - 1) as nat) + pow2(footer_bits((ps - 1) as nat)),
{
}

/// The repeated offsets after a match: slot 0 keeps them, slot 1 swaps the first two and
/// slot 2 the first and last, so the three values stay the same; any other slot puts the
/// new offset `formatted - 2` in front of the first two.
pub proof fn lemma_lru_update(r: Seq<u32>, ps: nat, formatted: nat)
    requires
        r.len() == 3,
        2 <= formatted,
    ensures
        ps == 0 ==> lru_update(r, ps, formatted) == (r[0] as nat, r),
        ps == 1 ==> lru_update(r, ps, formatted).1 == seq![r[1], r[0], r[2]],
        ps == 2 ==> lru_update(r, ps, formatted).1 == seq![r[2], r[1], r[0]],
        ps < 3 ==> lru_update(r, ps, formatted).1.to_multiset() == r.to_multiset(),
        ps >= 3 ==> lru_update(r, ps, formatted) == ((formatted - 2) as nat, seq![
            (formatted - 2) as u32,
            r[0],
            r[1],
        ]),
{
    broadcast use vstd::seq_lib::to_multiset_build;

    let e = Seq::<u32>::empty();
    assert(r =~= e.push(r[0]).push(r[1]).push(r[2]));
    assert(seq![r[1], r[0], r[2]] =~= e.push(r[1]).push(r[0]).push(r[2]));
    assert(seq![r[2], r[1], r[0]] =~= e.push(r[2]).push(r[1]).push(r[0]));
    assert(e.to_multiset() =~= vstd::multiset::Multiset::empty()) by {
        e.to_multiset_ensures();
    }
    if ps == 1 {
        assert(lru_update(r, ps, formatted).1.to_multiset() =~= r.to_multiset());
    } else if ps == 2 {
        assert(lru_update(r, ps, formatted).1.to_multiset() =~= r.to_multiset());
    }
}

/// One element of a block's body.
#[derive(Debug)]
pub enum Decoded {
    /// A literal byte.
    Single(u8),
    /// A copy of `length` bytes from `offset` bytes back in the window.
    Match { offset: usize, length: usize },
    /// A run of raw bytes, at most this many.
    Read(usize),
}

/// The path lengths of a tree that may be absent.
pub open spec fn lengths_of(t: Option<&Tree>) -> Option<Seq<u8>> {
    match t {
        Some(t) => Some(t.path_lengths@),
        None => None,
    }
}

/// The length of a match from its length header: the header plus 2, or with header 7 a
/// symbol of the length tree plus 9.
pub open spec fn match_length_spec(lh: nat, length: Option<Seq<u8>>, st: BitState) -> Result<
    (nat, BitState),
    DecodeFailed,
> {
    if lh == 7 {
        match length {
            None => Err(DecodeFailed::EmptyTree),
            Some(lp) => match decode_spec(lp, st) {
                None => Err(DecodeFailed::UnexpectedEof),
                Some((l, s)) => Ok(((l + 9) as nat, s)),
            },
        }
    } else {
        Ok((lh + 2, st))
    }
}

/// The formatted offset of a match at position slot `ps >= 3`: the slot's base plus its
/// footer bits. In an aligned offset block, a footer of 3 bits or more has its low 3 bits
/// coded with the aligned offset tree.
pub open spec fn formatted_offset_spec(ps: nat, aligned: Option<Seq<u8>>, st: BitState) -> Result<
    (nat, BitState),
    DecodeFailed,
> {
    let fb = footer_bits(ps);
    if aligned is Some && fb >= 3 {
        match st.read((fb - 3) as nat) {
            None => Err(DecodeFailed::UnexpectedEof),
            Some((v, s1)) => match decode_spec(aligned.unwrap(), s1) {
                None => Err(DecodeFailed::UnexpectedEof),
                Some((a, s2)) => Ok(((base_position(ps) + v * 8 + a) as nat, s2)),
            },
        }
    } else {
        match st.read(fb) {
            None => Err(DecodeFailed::UnexpectedEof),
            Some((v, s1)) => Ok((base_position(ps) + v, s1)),
        }
    }
}

/// The offset of a match at position slot `ps`, and the three repeated offsets after it.
/// Slot 0 repeats `r[0]`; slots 1 and 2 repeat `r[1]` or `r[2]` and swap it with `r[0]`;
/// other slots give the new offset `formatted - 2`, which goes to the front.
pub open spec fn lru_update(r: Seq<u32>, ps: nat, formatted: nat) -> (nat, Seq<u32>) {
    if ps == 0 {
        (r[0] as nat, r)
    } else if ps == 1 {
        (r[1] as nat, seq![r[1], r[0], r[2]])
    } else if ps == 2 {
        (r[2] as nat, seq![r[2], r[1], r[0]])
    } else {
        ((formatted - 2) as nat, seq![(formatted - 2) as u32, r[0], r[1]])
    }
}

/// Decoding one element of a verbatim or aligned offset block: a main tree symbol, which is
/// a literal below 256, or else a match whose length header is its low 3 bits and whose
/// position slot is the rest. Gives the element, the repeated offsets after it and the
/// reader after it.
pub open spec fn decode_element_spec(
    st: BitState,
    r: Seq<u32>,
    aligned: Option<Seq<u8>>,
    main: Seq<u8>,
    length: Option<Seq<u8>>,
) -> Result<(Decoded, Seq<u32>, BitState), DecodeFailed> {
    match decode_spec(main, st) {
        None => Err(DecodeFailed::UnexpectedEof),
        Some((m, s1)) => if m < 256 {
            Ok((Decoded::Single(m as u8), r, s1))
        } else {
            let lh = ((m - 256) % 8) as nat;
            let ps = ((m - 256) / 8) as nat;
            match match_length_spec(lh, length, s1) {
                Err(e) => Err(e),
                Ok((len, s2)) => if ps < 3 {
                    let (off, r2) = lru_update(r, ps, 0);
                    Ok((Decoded::Match { offset: off as usize, length: len as usize }, r2, s2))
                } else {
                    match formatted_offset_spec(ps, aligned, s2) {
                        Err(e) => Err(e),
                        Ok((f, s3)) => {
                            let (off, r2) = lru_update(r, ps, f);
                            Ok(
                                (
                                    Decoded::Match { offset: off as usize, length: len as usize },
                                    r2,
                                    s3,
                                ),
                            )
                        },
                    }
                },
            }
        },
    }
}

/// Reads the length of a match with the given length header.
fn read_match_length(bitstream: &mut Bitstream, length_header: u16, length_tree: Option<&Tree>) -> (r:
    Result<usize, DecodeFailed>)
    requires
        old(bitstream).wf(),
        length_header < 8,
        length_tree matches Some(t) ==> t.wf() && t.path_lengths.len() == 249,
    ensures
        final(bitstream).wf(),
        match match_length_spec(length_header as nat, lengths_of(length_tree), old(bitstream)@) {
            Ok((l, st)) => r == Ok::<usize, DecodeFailed>(l as usize) && final(bitstream)@ == st
                && l < 0x10000,
            Err(e) => r == Err::<usize, DecodeFailed>(e),
        },
{
    if length_header == 7 {
        match length_tree {
            None => Err(DecodeFailed::EmptyTree),
            Some(t) => {
                proof {
                    crate::tree::lemma_decode_symbol_bound(t, bitstream@);
                }
                let l = t.decode_element(bitstream)?;
                Ok(l as usize + 9)
            },
        }
    } else {
        Ok(length_header as usize + 2)
    }
}

/// Reads the footer of a match at position slot `ps >= 3` and gives its formatted offset.
fn read_formatted_offset(bitstream: &mut Bitstream, ps: u32, aligned_offset_tree: Option<&Tree>) -> (r:
    Result<u32, DecodeFailed>)
    requires
        old(bitstream).wf(),
        3 <= ps < 290,
        aligned_offset_tree matches Some(t) ==> t.wf() && t.path_lengths.len() == 8,
    ensures
        final(bitstream).wf(),
        match formatted_offset_spec(ps as nat, lengths_of(aligned_offset_tree), old(bitstream)@) {
            Ok((f, st)) => r == Ok::<u32, DecodeFailed>(f as u32) && final(bitstream)@ == st && 3
                <= f < 0x1000_0000,
            Err(e) => r == Err::<u32, DecodeFailed>(e),
        },
{
    let offset_bits = footer_bits_of(ps);
    let base = base_position_of(ps);
    let ghost s0 = bitstream@;
    proof {
        bitstream.lemma_view_wf();
        lemma_base_closed(ps as nat);
        vstd::arithmetic::power2::lemma2_to64();
    }
    match aligned_offset_tree {
        Some(aligned) if offset_bits >= 3 => {
            let verbatim_bits = bitstream.read_bits(offset_bits - 3)?;
            let ghost s1 = bitstream@;
            proof {
                s0.lemma_read_bound((offset_bits - 3) as nat);
                crate::tree::lemma_decode_symbol_bound(aligned, s1);
                crate::bitstream::lemma_pow2_le((offset_bits - 3) as nat, 14);
            }
            let aligned_bits = aligned.decode_element(bitstream)?;
            Ok(base + verbatim_bits * 8 + aligned_bits as u32)
        },
        _ => {
            let verbatim_bits = bitstream.read_bits(offset_bits)?;
            proof {
                s0.lemma_read_bound(offset_bits as nat);
                crate::bitstream::lemma_pow2_le(offset_bits as nat, 17);
            }
            Ok(base + verbatim_bits)
        },
    }
}

/// Decodes one element of a verbatim block (no aligned offset tree) or an aligned offset
/// block, updating the repeated offsets `r`.
#[verifier::rlimit(60)]
pub fn decode_element(
    bitstream: &mut Bitstream,
    r: &mut [u32; 3],
    aligned_offset_tree: Option<&Tree>,
    main_tree: &Tree,
    length_tree: Option<&Tree>,
) -> (res: Result<Decoded, DecodeFailed>)
    requires
        old(bitstream).wf(),
        main_tree.wf(),
        main_tree.path_lengths.len() <= 256 + 8 * 290,
        aligned_offset_tree matches Some(t) ==> t.wf() && t.path_lengths.len() == 8,
        length_tree matches Some(t) ==> t.wf() && t.path_lengths.len() == 249,
    ensures
        final(bitstream).wf(),
        match decode_element_spec(
            old(bitstream)@,
            old(r)@,
            lengths_of(aligned_offset_tree),
            main_tree.path_lengths@,
            lengths_of(length_tree),
        ) {
            Ok((d, r2, st)) => {
                &&& res == Ok::<Decoded, DecodeFailed>(d)
                &&& final(r)@ == r2
                &&& final(bitstream)@ == st
            },
            Err(e) => res == Err::<Decoded, DecodeFailed>(e),
        },
{
    proof {
        crate::tree::lemma_decode_symbol_bound(main_tree, bitstream@);
    }
    let main_element = main_tree.decode_element(bitstream)?;
    if main_element < 256 {
        return Ok(Decoded::Single(main_element as u8));
    }
    let length_header = (main_element - 256) % 8;
    let position_slot = ((main_element - 256) / 8) as u32;
    let match_length = read_match_length(bitstream, length_header, length_tree)?;
    let match_offset: u32;
    if position_slot == 0 {
        match_offset = r[0];
    } else if position_slot == 1 {
        match_offset = r[1];
        let t = r[0];
        r[0] = r[1];
        r[1] = t;
    } else if position_slot == 2 {
        match_offset = r[2];
        let t = r[0];
        r[0] = r[2];
        r[2] = t;
    } else {
        let formatted_offset = read_formatted_offset(bitstream, position_slot, aligned_offset_tree)?;
        match_offset = formatted_offset - 2;
        r[2] = r[1];
        r[1] = r[0];
        r[0] = match_offset;
    }
    proof {
        assert(r@ =~= lru_update(old(r)@, position_slot as nat, (match_offset + 2) as nat).1);
    }
    Ok(Decoded::Match { offset: match_offset as usize, length: match_length })
}

/// What a block decodes with.
#[derive(Debug)]
pub enum Kind {
    Verbatim { main_tree: Tree, length_tree: Option<Tree> },
    AlignedOffset { aligned_offset_tree: Tree, main_tree: Tree, length_tree: Option<Tree> },
    /// Raw bytes; `r` holds the repeated offsets that the block header sets.
    Uncompressed { r: [u32; 3] },
}

/// A block, once its header and trees have been read.
pub struct Block {
    /// Bytes of the block still to be produced.
    pub remaining: u32,
    /// Bytes the block produces in all (24 bits).
    pub size: u32,
    pub kind: Kind,
}

/// What a block header gives: its type (1 verbatim, 2 aligned offset, 3 uncompressed), its
/// size, the path lengths of its trees, the repeated offsets of an uncompressed block, and
/// the reader after the header.
pub struct Header {
    pub kind: nat,
    pub size: nat,
    pub aligned: Seq<u8>,
    pub main: Seq<u8>,
    pub length: Seq<u8>,
    pub r: Seq<u32>,
    pub after: BitState,
}

/// Reading the deltas of the main tree, in two ranges (the literals, then the matches), and
/// of the length tree.
pub open spec fn read_trees_spec(st: BitState, main: Seq<u8>, length: Seq<u8>, slots: nat) -> Result<
    (Seq<u8>, Seq<u8>, BitState),
    DecodeFailed,
> {
    match update_range_spec(main, st, 0, 256) {
        Err(e) => Err(e),
        Ok((m1, s1)) => match update_range_spec(m1, s1, 256, (256 + 8 * slots) as int) {
            Err(e) => Err(e),
            Ok((m2, s2)) => match update_range_spec(length, s2, 0, 249) {
                Err(e) => Err(e),
                Ok((l, s3)) => Ok((m2, l, s3)),
            },
        },
    }
}

/// The trees of a verbatim or aligned offset block can be built: the main tree is not
/// empty, and each tree that is not empty is a complete code.
pub open spec fn trees_error(main: Seq<u8>, length: Seq<u8>) -> Option<DecodeFailed> {
    if max_len(main) == 0 {
        Some(DecodeFailed::EmptyTree)
    } else if !is_complete(main) {
        Some(DecodeFailed::InvalidPathLengths)
    } else if max_len(length) > 0 && !is_complete(length) {
        Some(DecodeFailed::InvalidPathLengths)
    } else {
        None
    }
}

/// Reading a block header: 3 bits of type and a 24-bit size, then for a verbatim block the
/// tree deltas; for an aligned offset block first 8 aligned offset path lengths of 3 bits
/// each; for an uncompressed block an alignment and three 32-bit repeated offsets.
pub open spec fn read_block_spec(st: BitState, main: Seq<u8>, length: Seq<u8>, slots: nat) -> Result<
    Header,
    DecodeFailed,
> {
    match st.read(3) {
        None => Err(DecodeFailed::UnexpectedEof),
        Some((kind, s1)) => match s1.read(24) {
            None => Err(DecodeFailed::UnexpectedEof),
            Some((size, s2)) => if size == 0 {
                Err(DecodeFailed::InvalidBlockSize(0))
            } else if kind == 1 || kind == 2 {
                let al = if kind == 2 {
                    read_lengths(s2, 8, 3)
                } else {
                    Some((Seq::empty(), s2))
                };
                match al {
                    None => Err(DecodeFailed::UnexpectedEof),
                    Some((aligned, s3)) => if kind == 2 && max_len(aligned) == 0 {
                        Err(DecodeFailed::EmptyTree)
                    } else if kind == 2 && !is_complete(aligned) {
                        Err(DecodeFailed::InvalidPathLengths)
                    } else {
                        match read_trees_spec(s3, main, length, slots) {
                            Err(e) => Err(e),
                            Ok((m, l, s4)) => match trees_error(m, l) {
                                Some(e) => Err(e),
                                None => Ok(
                                    Header {
                                        kind,
                                        size,
                                        aligned,
                                        main: m,
                                        length: l,
                                        r: Seq::empty(),
                                        after: s4,
                                    },
                                ),
                            },
                        }
                    },
                }
            } else if kind == 3 {
                match s2.align() {
                    None => Err(DecodeFailed::UnexpectedEof),
                    Some(s3) => match s3.read_u32_le() {
                        None => Err(DecodeFailed::UnexpectedEof),
                        Some((r0, s4)) => match s4.read_u32_le() {
                            None => Err(DecodeFailed::UnexpectedEof),
                            Some((r1, s5)) => match s5.read_u32_le() {
                                None => Err(DecodeFailed::UnexpectedEof),
                                Some((r2, s6)) => Ok(
                                    Header {
                                        kind,
                                        size,
                                        aligned: Seq::empty(),
                                        main,
                                        length,
                                        r: seq![r0 as u32, r1 as u32, r2 as u32],
                                        after: s6,
                                    },
                                ),
                            },
                        },
                    },
                }
            } else {
                Err(DecodeFailed::InvalidBlock(kind as u8))
            },
        },
    }
}

/// A block header that reads gives a size of 1 to `2^24 - 1` bytes.
pub proof fn lemma_header_size(st: BitState, main: Seq<u8>, length: Seq<u8>, slots: nat)
    requires
        st.wf(),
    ensures
        read_block_spec(st, main, length, slots) matches Ok(h) ==> 0 < h.size < 0x100_0000,
{
    crate::bitstream::lemma_read_bits(st, 3);
    if let Some((_, s1)) = st.read(3) {
        s1.lemma_read_bound(24);
        vstd::arithmetic::power2::lemma2_to64();
    }
}

/// A decoded match copies at least 2 bytes.
pub proof fn lemma_match_length(
    st: BitState,
    r: Seq<u32>,
    aligned: Option<Seq<u8>>,
    main: Seq<u8>,
    length: Option<Seq<u8>>,
)
    ensures
        decode_element_spec(st, r, aligned, main, length) matches Ok((Decoded::Match { length: l, .. }, _, _)) ==> l >= 2,
{
}

/// The length tree of a block: none when all its path lengths are 0.
pub open spec fn optional_tree(t: Option<Tree>, p: Seq<u8>) -> bool {
    if max_len(p) == 0 {
        t is None
    } else {
        t matches Some(t) && t.wf() && t.path_lengths@ == p
    }
}

impl Block {
    /// The block's trees are built, with the symbol counts of their kind.
    pub open spec fn wf(&self) -> bool {
        &&& self.remaining <= self.size
        &&& match &self.kind {
            Kind::Verbatim { main_tree, length_tree } => {
                &&& main_tree.wf()
                &&& main_tree.path_lengths.len() <= 256 + 8 * 290
                &&& length_tree matches Some(t) ==> t.wf() && t.path_lengths.len() == 249
            },
            Kind::AlignedOffset { aligned_offset_tree, main_tree, length_tree } => {
                &&& aligned_offset_tree.wf()
                &&& aligned_offset_tree.path_lengths.len() == 8
                &&& main_tree.wf()
                &&& main_tree.path_lengths.len() <= 256 + 8 * 290
                &&& length_tree matches Some(t) ==> t.wf() && t.path_lengths.len() == 249
            },
            Kind::Uncompressed { .. } => true,
        }
    }

    /// The block is the one that the header `h` describes.
    pub open spec fn from_header(&self, h: Header) -> bool {
        &&& self.size == h.size
        &&& self.remaining == h.size
        &&& match &self.kind {
            Kind::Verbatim { main_tree, length_tree } => {
                &&& h.kind == 1
                &&& main_tree.path_lengths@ == h.main
                &&& optional_tree(*length_tree, h.length)
            },
            Kind::AlignedOffset { aligned_offset_tree, main_tree, length_tree } => {
                &&& h.kind == 2
                &&& aligned_offset_tree.path_lengths@ == h.aligned
                &&& main_tree.path_lengths@ == h.main
                &&& optional_tree(*length_tree, h.length)
            },
            Kind::Uncompressed { r } => h.kind == 3 && r@ == h.r,
        }
    }
}

impl Block {
    /// Reads the header of the next block, and with it the block's trees, updating the path
    /// lengths that the decoder keeps.
    pub fn read(bitstream: &mut Bitstream, state: &mut DecoderState) -> (r: Result<
        Self,
        DecodeFailed,
    >)
        requires
            old(bitstream).wf(),
            old(state).wf(),
        ensures
            final(bitstream).wf(),
            final(state).wf(),
            final(state).window_size == old(state).window_size,
            match read_block_spec(
                old(bitstream)@,
                old(state).main_tree.path_lengths@,
                old(state).length_tree.path_lengths@,
                old(state).window_size.spec_position_slots(),
            ) {
                Ok(h) => {
                    &&& r matches Ok(b) && b.wf() && b.from_header(h)
                    &&& final(state).main_tree.path_lengths@ == h.main
                    &&& final(state).length_tree.path_lengths@ == h.length
                    &&& final(bitstream)@ == h.after
                },
                Err(e) => r == Err::<Block, DecodeFailed>(e),
            },
    {
        let ghost s0 = bitstream@;
        proof {
            bitstream.lemma_view_wf();
            s0.lemma_read_bound(3);
            vstd::arithmetic::power2::lemma2_to64();
        }
        let kind = bitstream.read_bits(3)? as u8;
        let ghost s1 = bitstream@;
        proof {
            bitstream.lemma_view_wf();
            s1.lemma_read_bound(24);
            vstd::arithmetic::power2::lemma2_to64_rest();
        }
        let size = bitstream.read_u24_be()?;
        if size == 0 {
            return Err(DecodeFailed::InvalidBlockSize(size));
        }
        let kind = if kind == 1 {
            read_main_and_length_trees(bitstream, state)?;
            let main_tree = state.main_tree.create_instance()?;
            let length_tree = state.length_tree.create_instance_allow_empty()?;
            Kind::Verbatim { main_tree, length_tree }
        } else if kind == 2 {
            let path_lengths = read_path_lengths(bitstream, 8, 3)?;
            let aligned_offset_tree = Tree::from_path_lengths(path_lengths)?;
            read_main_and_length_trees(bitstream, state)?;
            let main_tree = state.main_tree.create_instance()?;
            let length_tree = state.length_tree.create_instance_allow_empty()?;
            Kind::AlignedOffset { aligned_offset_tree, main_tree, length_tree }
        } else if kind == 3 {
            bitstream.align()?;
            let r0 = bitstream.read_u32_le()?;
            let r1 = bitstream.read_u32_le()?;
            let r2 = bitstream.read_u32_le()?;
            let r = [r0, r1, r2];
            assert(r@ =~= seq![r0, r1, r2]);
            Kind::Uncompressed { r }
        } else {
            return Err(DecodeFailed::InvalidBlock(kind));
        };
        Ok(Block { remaining: size, size, kind })
    }

    /// Decodes the next element of the block, updating the repeated offsets `r`. An
    /// uncompressed block installs its own repeated offsets and asks for its remaining bytes.
    pub fn decode_element(&self, bitstream: &mut Bitstream, r: &mut [u32; 3]) -> (res: Result<
        Decoded,
        DecodeFailed,
    >)
        requires
            self.wf(),
            old(bitstream).wf(),
        ensures
            final(bitstream).wf(),
            match &self.kind {
                Kind::Uncompressed { r: new_r } => {
                    &&& res == Ok::<Decoded, DecodeFailed>(Decoded::Read(self.remaining as usize))
                    &&& final(r)@ == new_r@
                    &&& final(bitstream)@ == old(bitstream)@
                },
                _ => match decode_element_spec(
                    old(bitstream)@,
                    old(r)@,
                    self.aligned_lengths(),
                    self.main_lengths(),
                    self.length_lengths(),
                ) {
                    Ok((d, r2, st)) => {
                        &&& res == Ok::<Decoded, DecodeFailed>(d)
                        &&& final(r)@ == r2
                        &&& final(bitstream)@ == st
                    },
                    Err(e) => res == Err::<Decoded, DecodeFailed>(e),
                },
            },
    {
        match &self.kind {
            Kind::Verbatim { main_tree, length_tree } => decode_element(
                bitstream,
                r,
                None,
                main_tree,
                length_tree.as_ref(),
            ),
            Kind::AlignedOffset { aligned_offset_tree, main_tree, length_tree } => decode_element(
                bitstream,
                r,
                Some(aligned_offset_tree),
                main_tree,
                length_tree.as_ref(),
            ),
            Kind::Uncompressed { r: new_r } => {
                r[0] = new_r[0];
                r[1] = new_r[1];
                r[2] = new_r[2];
                assert(r@ =~= new_r@);
                Ok(Decoded::Read(self.remaining as usize))
            },
        }
    }

    /// Path lengths of the aligned offset tree, if the block has one.
    pub open spec fn aligned_lengths(&self) -> Option<Seq<u8>> {
        match &self.kind {
            Kind::AlignedOffset { aligned_offset_tree, .. } => Some(
                aligned_offset_tree.path_lengths@,
            ),
            _ => None,
        }
    }

    /// Path lengths of the main tree of a verbatim or aligned offset block.
    pub open spec fn main_lengths(&self) -> Seq<u8> {
        match &self.kind {
            Kind::Verbatim { main_tree, .. } => main_tree.path_lengths@,
            Kind::AlignedOffset { main_tree, .. } => main_tree.path_lengths@,
            _ => Seq::empty(),
        }
    }

    /// Path lengths of the length tree, if the block has one.
    pub open spec fn length_lengths(&self) -> Option<Seq<u8>> {
        match &self.kind {
            Kind::Verbatim { length_tree: Some(t), .. } => Some(t.path_lengths@),
            Kind::AlignedOffset { length_tree: Some(t), .. } => Some(t.path_lengths@),
            _ => None,
        }
    }
}

/// Reads the tree deltas of a verbatim or aligned offset block into the decoder state.
fn read_main_and_length_trees(bitstream: &mut Bitstream, state: &mut DecoderState) -> (r: Result<
    (),
    DecodeFailed,
>)
    requires
        old(bitstream).wf(),
        old(state).wf(),
    ensures
        final(bitstream).wf(),
        final(state).wf(),
        final(state).window_size == old(state).window_size,
        match read_trees_spec(
            old(bitstream)@,
            old(state).main_tree.path_lengths@,
            old(state).length_tree.path_lengths@,
            old(state).window_size.spec_position_slots(),
        ) {
            Ok((m, l, st)) => {
                &&& r.is_ok()
                &&& final(state).main_tree.path_lengths@ == m
                &&& final(state).length_tree.path_lengths@ == l
                &&& final(bitstream)@ == st
            },
            Err(e) => r == Err::<(), DecodeFailed>(e),
        },
{
    let slots = state.window_size.position_slots();
    state.main_tree.update_range_with_pretree(bitstream, 0..256)?;
    state.main_tree.update_range_with_pretree(bitstream, 256..256 + 8 * slots)?;
    state.length_tree.update_range_with_pretree(bitstream, 0..249)?;
    Ok(())
}

} // verus!
