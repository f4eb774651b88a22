//! Decompressor for the LZXD (Lempel-Ziv Extended Delta) format.
use vstd::prelude::*;

use crate::bitstream::BitState;
use crate::stream::{
    block_state, decode_run, element_step, next_block, read_stream_header, DecoderModel,
};
use crate::window::shift_in;

pub mod bitstream;
pub mod block;
pub mod stream;
pub mod tree;
pub mod window;

pub use bitstream::Bitstream;
pub use block::{Block, Decoded, Kind};
pub use tree::{CanonicalTree, Tree};
pub use window::{Window, WindowSize};

verus! {

/// Largest number of bytes that one chunk decompresses to.
pub const MAX_CHUNK_SIZE: usize = 32768;

/// Specific cause for decompression failure.
#[derive(Debug, Clone, Copy, PartialEq, Eq, Structural)]
pub enum DecodeFailed {
    /// The chunk data caused a read of more items than the current block had in a single step.
    OverreadBlock,
    /// There was not enough data in the chunk to fully decode, and a premature end was found.
    UnexpectedEof,
    /// An invalid block type was found.
    InvalidBlock(u8),
    /// An invalid block size was found.
    InvalidBlockSize(u32),
    /// An invalid pretree element was found.
    InvalidPretreeElement(u16),
    /// Invalid pretree run-length encoding.
    InvalidPretreeRle,
    /// When attempting to construct a decode tree, an invalid set of path lengths was found.
    InvalidPathLengths,
    /// A required decode tree was empty (all path lengths were 0).
    EmptyTree,
    /// The window was too small for the requested operation.
    WindowTooSmall,
    /// Tried to read a chunk longer than `MAX_CHUNK_SIZE`.
    ChunkTooLong,
}

/// What the decoder keeps across blocks.
pub struct DecoderState {
    /// The window size the stream was made for.
    pub window_size: WindowSize,
    /// Path lengths of the main tree, which the next block updates by deltas.
    pub main_tree: CanonicalTree,
    /// Path lengths of the length tree, which the next block updates by deltas.
    pub length_tree: CanonicalTree,
}

impl DecoderState {
    /// The main tree has 256 literals and 8 match symbols per position slot; the length
    /// tree has 249 symbols.
    pub open spec fn wf(&self) -> bool {
        &&& self.main_tree.wf()
        &&& self.length_tree.wf()
        &&& self.main_tree.path_lengths.len() == 256 + 8 * self.window_size.spec_position_slots()
        &&& self.length_tree.path_lengths.len() == 249
    }
}

/// The error type used when decompression fails.
#[derive(Debug, Clone, Copy, PartialEq, Eq, Structural)]
pub struct DecompressError(pub DecodeFailed);

impl From<DecodeFailed> for DecompressError {
    fn from(value: DecodeFailed) -> (r: Self)
        ensures
            r.0 == value,
    {
        DecompressError(value)
    }
}

impl vstd::std_specs::convert::FromSpecImpl<DecodeFailed> for DecompressError {
    open spec fn obeys_from_spec() -> bool {
        true
    }

    open spec fn from_spec(v: DecodeFailed) -> Self {
        DecompressError(v)
    }
}

/// The little-endian 32-bit integer at `p` in `d`.
pub open spec fn le_i32(d: Seq<u8>, p: int) -> i32 {
    (d[p] as u32 | (d[p + 1] as u32) << 8u32 | (d[p + 2] as u32) << 16u32 | (d[p + 3] as u32)
        << 24u32) as i32
}

/// `d` with the little-endian bytes of `v` written at `p`.
pub open spec fn put_i32(d: Seq<u8>, p: int, v: i32) -> Seq<u8> {
    let u = v as u32;
    Seq::new(
        d.len(),
        |k: int|
            if k == p {
                u as u8
            } else if k == p + 1 {
                (u >> 8u32) as u8
            } else if k == p + 2 {
                (u >> 16u32) as u8
            } else if k == p + 3 {
                (u >> 24u32) as u8
            } else {
                d[k]
            },
    )
}

/// E8 call translation of the bytes `d` from index `p` on, where `off` is the position of
/// `d` in the whole output and `ts` the translation size. Each `0xE8` byte that has more
/// than 10 bytes after it is followed by an absolute 32-bit value `v`; where
/// `-(off + at) <= v < ts`, it becomes `v - (off + at)` if positive and `v + ts` otherwise.
/// The scan goes on after the 4 value bytes.
pub open spec fn e8_from(d: Seq<u8>, ts: i32, off: int, p: int) -> Seq<u8>
    decreases d.len() - p,
{
    if p >= d.len() {
        d
    } else if d[p] != 0xE8 {
        e8_from(d, ts, off, p + 1)
    } else if d.len() - p <= 10 {
        d
    } else {
        let cur = (off + p) as i32;
        let v = le_i32(d, p + 1);
        let d2 = if v >= -cur && v < ts {
            put_i32(
                d,
                p + 1,
                if v > 0 {
                    v.wrapping_sub(cur)
                } else {
                    v.wrapping_add(ts)
                },
            )
        } else {
            d
        };
        e8_from(d2, ts, off, p + 5)
    }
}

/// E8 translation keeps the number of bytes.
pub proof fn lemma_e8_len(d: Seq<u8>, ts: i32, off: int, p: int)
    ensures
        e8_from(d, ts, off, p).len() == d.len(),
    decreases d.len() - p,
{
    if p < d.len() && d[p] != 0xE8 {
        lemma_e8_len(d, ts, off, p + 1);
    } else if p < d.len() && d.len() - p > 10 {
        let cur = (off + p) as i32;
        let v = le_i32(d, p + 1);
        let d2 = if v >= -cur && v < ts {
            put_i32(
                d,
                p + 1,
                if v > 0 {
                    v.wrapping_sub(cur)
                } else {
                    v.wrapping_add(ts)
                },
            )
        } else {
            d
        };
        lemma_e8_len(d2, ts, off, p + 5);
    }
}

/// E8 translation of a whole chunk.
pub open spec fn e8_translate(d: Seq<u8>, ts: i32, off: int) -> Seq<u8> {
    e8_from(d, ts, off, 0)
}

/// State of the E8 translation, known once the first chunk's header is read.
pub struct PostProcessState {
    /// The translation size of the stream.
    pub e8_translation_size: i32,
    /// Room for one translated chunk.
    pub data_chunk: Vec<u8>,
}

/// Performs E8 translation on the first `len` bytes of `idata`.
fn postprocess(translation_size: i32, chunk_offset: usize, idata: &mut Vec<u8>, len: usize)
    requires
        len <= old(idata).len(),
        len <= MAX_CHUNK_SIZE,
        chunk_offset < 0x4000_0000,
    ensures
        final(idata).len() == old(idata).len(),
        final(idata)@.take(len as int) == e8_translate(
            old(idata)@.take(len as int),
            translation_size,
            chunk_offset as int,
        ),
{
    let ghost d0 = idata@.take(len as int);
    let mut processed: usize = 0;
    while processed < len
        invariant
            len <= idata.len(),
            len <= MAX_CHUNK_SIZE,
            idata.len() == old(idata).len(),
            chunk_offset < 0x4000_0000,
            d0 == old(idata)@.take(len as int),
            e8_translate(d0, translation_size, chunk_offset as int) == e8_from(
                idata@.take(len as int),
                translation_size,
                chunk_offset as int,
                processed as int,
            ),
        decreases len - processed,
    {
        let ghost d = idata@.take(len as int);
        if idata[processed] != 0xE8 {
            processed += 1;
        } else if len - processed <= 10 {
            assert(d[processed as int] == 0xE8);
            assert(e8_from(d, translation_size, chunk_offset as int, processed as int) == d);
            return;
        } else {
            let pos = processed;
            let current_pointer = (chunk_offset + pos) as i32;
            let abs_val = (idata[pos + 1] as u32 | (idata[pos + 2] as u32) << 8u32 | (idata[pos
                + 3] as u32) << 16u32 | (idata[pos + 4] as u32) << 24u32) as i32;
            assert(abs_val == le_i32(d, pos + 1));
            if abs_val >= -current_pointer && abs_val < translation_size {
                let rel_val = if abs_val > 0 {
                    abs_val.wrapping_sub(current_pointer)
                } else {
                    abs_val.wrapping_add(translation_size)
                };
                let u = rel_val as u32;
                idata.set(pos + 1, u as u8);
                idata.set(pos + 2, (u >> 8u32) as u8);
                idata.set(pos + 3, (u >> 16u32) as u8);
                idata.set(pos + 4, (u >> 24u32) as u8);
                assert(idata@.take(len as int) =~= put_i32(d, pos + 1, rel_val));
            }
            processed = pos + 5;
        }
    }
}

/// The main interface to perform LZXD decompression.
///
/// It keeps the state needed to decompress the chunks of one stream, in order.
pub struct Lzxd {
    /// Sliding window into which data is decompressed.
    window: Window,
    /// Path lengths kept across blocks.
    state: DecoderState,
    /// The three most recent match offsets.
    r: [u32; 3],
    /// Number of bytes decompressed so far.
    chunk_offset: usize,
    /// Whether the stream header, which comes with the first chunk, has been read.
    first_chunk_read: bool,
    /// The block being decoded.
    current_block: Block,
    /// E8 translation state, once the stream header says it is enabled.
    postprocess: Option<PostProcessState>,
}

impl Lzxd {
    /// The window has the decoder's size and the block and trees are well formed.
    pub closed spec fn wf(&self) -> bool {
        &&& self.window.wf()
        &&& self.window.buffer.len() == self.state.window_size.spec_value()
        &&& self.state.wf()
        &&& self.current_block.wf()
        &&& self.postprocess matches Some(p) ==> p.data_chunk.len() == MAX_CHUNK_SIZE
    }

    /// The window size the decoder was made with.
    pub closed spec fn window_size(&self) -> WindowSize {
        self.state.window_size
    }

    /// The decoder's window, oldest byte first.
    pub closed spec fn window_view(&self) -> Seq<u8> {
        self.window@
    }

    /// Number of bytes decompressed so far (saturating).
    pub closed spec fn bytes_out(&self) -> nat {
        self.chunk_offset as nat
    }

    /// The translation size, when E8 translation is enabled.
    pub closed spec fn e8_size(&self) -> Option<i32> {
        match self.postprocess {
            Some(p) => Some(p.e8_translation_size),
            None => None,
        }
    }

    /// The three most recent match offsets.
    pub closed spec fn repeated_offsets(&self) -> Seq<u32> {
        self.r@
    }

    /// Whether the stream header, which comes with the first chunk, has been read.
    pub closed spec fn header_read(&self) -> bool {
        self.first_chunk_read
    }

    /// The decoder's state, with `bits` left to read.
    pub closed spec fn model(&self, bits: BitState) -> DecoderModel {
        DecoderModel {
            window: self.window@,
            r: self.r@,
            block: block_state(&self.current_block),
            main: self.state.main_tree.path_lengths@,
            length: self.state.length_tree.path_lengths@,
            bits,
        }
    }

    /// Decompressing `chunk` into `n` bytes: the stream header if it has not been read yet,
    /// then elements until `n` bytes are produced. Gives the E8 translation size and the
    /// decoder after the chunk.
    pub open spec fn decompress_spec(&self, chunk: Seq<u8>, n: nat) -> Result<
        (Option<i32>, DecoderModel),
        DecodeFailed,
    > {
        let st = BitState { pending: Seq::empty(), rest: chunk };
        let header = if self.header_read() {
            Some((self.e8_size(), st))
        } else {
            read_stream_header(st)
        };
        match header {
            None => Err(DecodeFailed::UnexpectedEof),
            Some((e8, st1)) => match decode_run(
                self.model(st1),
                n,
                self.window_size().spec_position_slots(),
            ) {
                Err(e) => Err(e),
                Ok(m) => Ok((e8, m)),
            },
        }
    }

    /// The decoder is as it was made: nothing decoded, a zeroed window, no block, no stream
    /// header read, all path lengths 0 and the repeated offsets (1, 1, 1).
    pub closed spec fn is_fresh(&self, window_size: WindowSize) -> bool {
        &&& self.wf()
        &&& self.state.window_size == window_size
        &&& self.window.pos == 0
        &&& self.window.buffer@ == Seq::new(window_size.spec_value(), |i: int| 0u8)
        &&& self.state.main_tree.path_lengths@ == Seq::new(
            256 + 8 * window_size.spec_position_slots(),
            |i: int| 0u8,
        )
        &&& self.state.length_tree.path_lengths@ == Seq::new(249, |i: int| 0u8)
        &&& self.r@ == seq![1u32, 1u32, 1u32]
        &&& self.chunk_offset == 0
        &&& !self.first_chunk_read
        &&& self.current_block.remaining == 0
        &&& self.current_block.size == 0
        &&& self.current_block.kind matches Kind::Uncompressed { r } && r@ == seq![
            1u32,
            1u32,
            1u32,
        ]
        &&& self.postprocess is None
    }

    /// The output of a chunk whose decoded bytes are `plain`, given the offset in the stream
    /// at which the chunk starts: E8 translated when the stream enables it, the chunk starts
    /// below 1 GiB and is longer than 10 bytes.
    pub open spec fn chunk_output(&self, plain: Seq<u8>, offset: nat) -> Seq<u8> {
        match self.e8_size() {
            Some(ts) => if offset < 0x4000_0000 && plain.len() > 10 {
                e8_translate(plain, ts, offset as int)
            } else {
                plain
            },
            None => plain,
        }
    }

    /// Two fresh decoders of one window size decompress a chunk alike: the same result or
    /// the same error, and the same state after it.
    pub proof fn lemma_fresh_decoders_agree(
        a: &Lzxd,
        b: &Lzxd,
        window_size: WindowSize,
        chunk: Seq<u8>,
        n: nat,
    )
        requires
            a.is_fresh(window_size),
            b.is_fresh(window_size),
        ensures
            a.decompress_spec(chunk, n) == b.decompress_spec(chunk, n),
            a.bytes_out() == b.bytes_out(),
            a.e8_size() == b.e8_size(),
            a.window_view() == b.window_view(),
    {
        assert(a.window@ =~= b.window@);
        assert(a.r@ =~= b.r@);
        assert forall|st: BitState| a.model(st) == b.model(st) by {
            assert(block_state(&a.current_block) =~= block_state(&b.current_block));
        }
    }

    /// Creates a decoder for a stream made with the given window size.
    pub fn new(window_size: WindowSize) -> (r: Self)
        ensures
            r.is_fresh(window_size),
            r.window_size() == window_size,
    {
        let main_tree = CanonicalTree::new(256 + 8 * window_size.position_slots());
        let length_tree = CanonicalTree::new(249);
        let r = [1u32, 1, 1];
        assert(r@ =~= seq![1u32, 1u32, 1u32]);
        let current_block = Block { remaining: 0, size: 0, kind: Kind::Uncompressed { r } };
        let window = window_size.create_buffer();
        proof {
            crate::window::lemma_window_value(window_size);
        }
        Lzxd {
            window,
            state: DecoderState { window_size, main_tree, length_tree },
            r,
            first_chunk_read: false,
            chunk_offset: 0,
            postprocess: None,
            current_block,
        }
    }

    /// Reads the stream header on the first chunk: one bit that enables E8 translation,
    /// then, if set, a 32-bit translation size.
    fn try_read_first_chunk(&mut self, bitstream: &mut Bitstream) -> (r: Result<(), DecodeFailed>)
        requires
            old(self).wf(),
            old(bitstream).wf(),
        ensures
            final(self).wf(),
            final(bitstream).wf(),
            final(self).window == old(self).window,
            final(self).state == old(self).state,
            final(self).r == old(self).r,
            final(self).chunk_offset == old(self).chunk_offset,
            final(self).current_block == old(self).current_block,
            old(self).first_chunk_read ==> {
                &&& r.is_ok()
                &&& final(self).postprocess == old(self).postprocess
                &&& *final(bitstream) == *old(bitstream)
            },
            final(self).first_chunk_read,
            !old(self).first_chunk_read ==> match read_stream_header(old(bitstream)@) {
                Some((e8, st)) => r.is_ok() && final(self).e8_size() == e8 && final(bitstream)@
                    == st,
                None => r == Err::<(), DecodeFailed>(DecodeFailed::UnexpectedEof),
            },
    {
        if !self.first_chunk_read {
            self.first_chunk_read = true;
            let bit = bitstream.read_bit()?;
            let e8_translation = bit != 0;
            self.postprocess = if e8_translation {
                let size = bitstream.read_bits(32)?;
                Some(
                    PostProcessState {
                        data_chunk: vec![0u8; MAX_CHUNK_SIZE],
                        e8_translation_size: size as i32,
                    },
                )
            } else {
                None
            };
        }
        Ok(())
    }

    /// Makes sure a block is open, reading the next block header once the current block is
    /// done.
    fn open_block(&mut self, bitstream: &mut Bitstream) -> (r: Result<(), DecodeFailed>)
        requires
            old(self).wf(),
            old(bitstream).wf(),
        ensures
            final(self).wf(),
            final(bitstream).wf(),
            final(self).window == old(self).window,
            final(self).r == old(self).r,
            final(self).chunk_offset == old(self).chunk_offset,
            final(self).postprocess == old(self).postprocess,
            final(self).first_chunk_read == old(self).first_chunk_read,
            final(self).state.window_size == old(self).state.window_size,
            match next_block(
                old(self).model(old(bitstream)@),
                old(self).state.window_size.spec_position_slots(),
            ) {
                Ok(m) => {
                    &&& r.is_ok()
                    &&& final(self).model(final(bitstream)@) == m
                    &&& final(self).current_block.remaining > 0
                },
                Err(e) => r == Err::<(), DecodeFailed>(e),
            },
    {
        proof {
            reveal(next_block);
        }
        if self.current_block.remaining == 0 {
            let odd_raw = match &self.current_block.kind {
                Kind::Uncompressed { .. } => self.current_block.size % 2 != 0,
                _ => false,
            };
            if odd_raw {
                bitstream.read_byte();
            }
            proof {
                bitstream.lemma_view_wf();
                crate::block::lemma_header_size(
                    bitstream@,
                    self.state.main_tree.path_lengths@,
                    self.state.length_tree.path_lengths@,
                    self.state.window_size.spec_position_slots(),
                );
            }
            let ghost before = bitstream@;
            let b = Block::read(bitstream, &mut self.state)?;
            proof {
                let h = crate::block::read_block_spec(
                    before,
                    old(self).state.main_tree.path_lengths@,
                    old(self).state.length_tree.path_lengths@,
                    old(self).state.window_size.spec_position_slots(),
                ).unwrap();
                crate::stream::lemma_header_block(&b, h);
            }
            self.current_block = b;
        }
        Ok(())
    }

    /// Decodes one element of the open block into the window, when `needed` more bytes are
    /// asked for, and returns the number of bytes it produced.
    fn decode_step(&mut self, bitstream: &mut Bitstream, needed: usize) -> (r: Result<
        usize,
        DecodeFailed,
    >)
        requires
            old(self).wf(),
            old(bitstream).wf(),
            old(self).current_block.remaining > 0,
            0 < needed <= MAX_CHUNK_SIZE,
        ensures
            final(self).wf(),
            final(bitstream).wf(),
            final(self).window.buffer.len() == old(self).window.buffer.len(),
            final(self).chunk_offset == old(self).chunk_offset,
            final(self).postprocess == old(self).postprocess,
            final(self).first_chunk_read == old(self).first_chunk_read,
            final(self).state.window_size == old(self).state.window_size,
            match element_step(old(self).model(old(bitstream)@), needed as nat) {
                Ok((m, n)) => {
                    &&& r == Ok::<usize, DecodeFailed>(n as usize)
                    &&& final(self).model(final(bitstream)@) == m
                    &&& 0 < n <= needed
                },
                Err(e) => r == Err::<usize, DecodeFailed>(e),
            },
    {
        proof {
            reveal(element_step);
        }
        let l = self.window.buffer.len();
        proof {
            crate::block::lemma_match_length(
                bitstream@,
                self.r@,
                self.current_block.aligned_lengths(),
                self.current_block.main_lengths(),
                self.current_block.length_lengths(),
            );
        }
        let decoded = self.current_block.decode_element(bitstream, &mut self.r)?;
        let advance: usize = match decoded {
            Decoded::Single(value) => {
                self.window.push(value);
                1
            },
            Decoded::Match { offset, length } => {
                if offset > l {
                    return Err(DecodeFailed::WindowTooSmall);
                }
                if length > needed {
                    return Err(DecodeFailed::OverreadBlock);
                }
                self.window.copy_from_self(offset, length);
                length
            },
            Decoded::Read(length) => {
                let length = if bitstream.remaining_bytes() < length {
                    bitstream.remaining_bytes()
                } else {
                    length
                };
                if length == 0 {
                    return Err(DecodeFailed::UnexpectedEof);
                }
                if length > needed {
                    return Err(DecodeFailed::OverreadBlock);
                }
                self.window.copy_from_bitstream(bitstream, length)?;
                length
            },
        };
        match self.current_block.remaining.checked_sub(advance as u32) {
            Some(v) => {
                self.current_block.remaining = v;
            },
            None => {
                return Err(DecodeFailed::OverreadBlock);
            },
        }
        Ok(advance)
    }

    /// Decompresses the next chunk of the stream into `output_len` bytes.
    ///
    /// The decoded bytes are appended to the window, and the result is those bytes, E8
    /// translated where the stream asks for it. A chunk that decodes to more bytes than
    /// `output_len` is refused; after any error the decoder must be reset.
    pub fn decompress_next(&mut self, chunk: &[u8], output_len: usize) -> (r: Result<
        &[u8],
        DecompressError,
    >)
        requires
            old(self).wf(),
        ensures
            final(self).wf(),
            final(self).window_size() == old(self).window_size(),
            output_len > MAX_CHUNK_SIZE ==> r == Err::<&[u8], DecompressError>(
                DecompressError(DecodeFailed::ChunkTooLong),
            ),
            output_len <= MAX_CHUNK_SIZE ==> match old(self).decompress_spec(
                chunk@,
                output_len as nat,
            ) {
                Ok((e8, m)) => {
                    &&& r is Ok
                    &&& final(self).model(m.bits) == m
                    &&& final(self).e8_size() == e8
                    &&& final(self).header_read()
                },
                Err(e) => r == Err::<&[u8], DecompressError>(DecompressError(e)),
            },
            r is Ok ==> {
                let w = final(self).window_view();
                let plain = w.subrange(w.len() - output_len, w.len() as int);
                &&& output_len <= MAX_CHUNK_SIZE
                &&& r.unwrap()@.len() == output_len
                &&& w == shift_in(old(self).window_view(), plain)
                &&& r.unwrap()@ == final(self).chunk_output(plain, old(self).bytes_out())
                &&& final(self).bytes_out() == if old(self).bytes_out() + output_len
                    > usize::MAX {
                    usize::MAX as int
                } else {
                    old(self).bytes_out() + output_len
                }
            },
    {
        if output_len > MAX_CHUNK_SIZE {
            return Err(DecompressError(DecodeFailed::ChunkTooLong));
        }
        let mut bitstream = Bitstream::new(chunk);
        assert(bitstream@.pending =~= Seq::<bool>::empty());
        assert(bitstream@ == (BitState { pending: Seq::empty(), rest: chunk@ }));
        let ghost st0 = bitstream@;
        match self.try_read_first_chunk(&mut bitstream) {
            Ok(()) => {},
            Err(e) => {
                return Err(DecompressError(e));
            },
        }
        let ghost pp = self.postprocess;
        let l = self.window.buffer.len();
        let ghost w0 = self.window@;
        let ghost slots = self.state.window_size.spec_position_slots();
        let ghost m0 = self.model(bitstream@);
        assert(m0 == old(self).model(bitstream@));
        assert(old(self).decompress_spec(chunk@, output_len as nat) == match decode_run(
            m0,
            output_len as nat,
            slots,
        ) {
            Err(e) => Err(e),
            Ok(m) => Ok((self.e8_size(), m)),
        });
        let ghost mut out: Seq<u8> = Seq::empty();
        let mut decoded_len: usize = 0;
        assert(shift_in(w0, out) =~= w0);
        while decoded_len < output_len
            invariant
                self.wf(),
                bitstream.wf(),
                self.window.buffer.len() == l,
                self.state.window_size == old(self).state.window_size,
                slots == self.state.window_size.spec_position_slots(),
                self.chunk_offset == old(self).chunk_offset,
                self.postprocess == pp,
                self.first_chunk_read,
                decoded_len <= output_len <= MAX_CHUNK_SIZE,
                out.len() == decoded_len,
                self.window@ == shift_in(w0, out),
                decode_run(m0, output_len as nat, slots) == decode_run(
                    self.model(bitstream@),
                    (output_len - decoded_len) as nat,
                    slots,
                ),
                old(self).decompress_spec(chunk@, output_len as nat) == match decode_run(
                    m0,
                    output_len as nat,
                    slots,
                ) {
                    Err(e) => Err(e),
                    Ok(m) => Ok((self.e8_size(), m)),
                },
            decreases output_len - decoded_len,
        {
            let ghost m_cur = self.model(bitstream@);
            proof {
                crate::stream::lemma_run_step(
                    m_cur,
                    (output_len - decoded_len) as nat,
                    slots,
                );
            }
            match self.open_block(&mut bitstream) {
                Ok(()) => {},
                Err(e) => {
                    return Err(DecompressError(e));
                },
            }
            let ghost m1 = self.model(bitstream@);
            let advance = match self.decode_step(&mut bitstream, output_len - decoded_len) {
                Ok(n) => n,
                Err(e) => {
                    return Err(DecompressError(e));
                },
            };
            proof {
                let added = self.window@.subrange(l - advance, l as int);
                crate::stream::lemma_element_window(m1, (output_len - decoded_len) as nat);
                crate::window::lemma_shift_in_twice(w0, out, added);
                out = out + added;
            }
            decoded_len += advance;
        }
        proof {
            crate::stream::lemma_run_done(self.model(bitstream@), slots);
        }
        let chunk_offset = self.chunk_offset;
        self.chunk_offset = self.chunk_offset.saturating_add(decoded_len);
        let ghost plain = self.window@.subrange(l - decoded_len, l as int);
        assert(plain =~= out);
        let translate = chunk_offset < 0x4000_0000 && decoded_len > 10;
        let ghost e8 = self.e8_size();
        match &mut self.postprocess {
            Some(pp) => {
                if translate {
                    assert(e8 == Some(pp.e8_translation_size));
                    let view = match self.window.past_view(decoded_len) {
                        Ok(v) => v,
                        Err(e) => {
                            return Err(DecompressError(e));
                        },
                    };
                    let mut k: usize = 0;
                    while k < decoded_len
                        invariant
                            k <= decoded_len <= MAX_CHUNK_SIZE,
                            pp.data_chunk.len() == MAX_CHUNK_SIZE,
                            e8 == Some(pp.e8_translation_size),
                            view@ == plain,
                            plain.len() == decoded_len,
                            forall|j: int| 0 <= j < k ==> pp.data_chunk@[j] == plain[j],
                        decreases decoded_len - k,
                    {
                        pp.data_chunk.set(k, view[k]);
                        k += 1;
                    }
                    assert(pp.data_chunk@.take(decoded_len as int) =~= plain);
                    postprocess(
                        pp.e8_translation_size,
                        chunk_offset,
                        &mut pp.data_chunk,
                        decoded_len,
                    );
                    assert(e8 == Some(pp.e8_translation_size));
                    proof {
                        lemma_e8_len(plain, pp.e8_translation_size, chunk_offset as int, 0);
                    }
                    Ok(&pp.data_chunk[0..decoded_len])
                } else {
                    match self.window.past_view(decoded_len) {
                        Ok(v) => Ok(v),
                        Err(e) => Err(DecompressError(e)),
                    }
                }
            },
            None => match self.window.past_view(decoded_len) {
                Ok(v) => Ok(v),
                Err(e) => Err(DecompressError(e)),
            },
        }
    }

    /// Resets the decoder, as if it were made anew with the same window size.
    pub fn reset(&mut self)
        requires
            old(self).wf(),
        ensures
            final(self).is_fresh(old(self).window_size()),
            final(self).window_size() == old(self).window_size(),
    {
        *self = Self::new(self.state.window_size);
    }
}

} // verus!
