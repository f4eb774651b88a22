use vstd::prelude::*;

use vstd::arithmetic::power2::pow2;

use crate::bitstream::{BitState, Bitstream};
use crate::{DecodeFailed, MAX_CHUNK_SIZE};

verus! {

/// Size of the sliding window. It is not stored in the compressed stream and must be known
/// before decoding begins.
#[derive(Debug, Clone, Copy, PartialEq, Eq, Hash, Structural)]
pub enum WindowSize {
    /// 32 KB (2^15 bytes).
    KB32,
    /// 64 KB (2^16 bytes).
    KB64,
    /// 128 KB (2^17 bytes).
    KB128,
    /// 256 KB (2^18 bytes).
    KB256,
    /// 512 KB (2^19 bytes).
    KB512,
    /// 1 MB (2^20 bytes).
    MB1,
    /// 2 MB (2^21 bytes).
    MB2,
    /// 4 MB (2^22 bytes).
    MB4,
    /// 8 MB (2^23 bytes).
    MB8,
    /// 16 MB (2^24 bytes).
    MB16,
    /// 32 MB (2^25 bytes).
    MB32,
}

impl WindowSize {
    /// Base-two logarithm of the window size in bytes.
    pub open spec fn log2(self) -> nat {
        match self {
            WindowSize::KB32 => 15,
            WindowSize::KB64 => 16,
            WindowSize::KB128 => 17,
            WindowSize::KB256 => 18,
            WindowSize::KB512 => 19,
            WindowSize::MB1 => 20,
            WindowSize::MB2 => 21,
            WindowSize::MB4 => 22,
            WindowSize::MB8 => 23,
            WindowSize::MB16 => 24,
            WindowSize::MB32 => 25,
        }
    }

    /// Number of bytes in the window.
    pub open spec fn spec_value(self) -> nat {
        pow2(self.log2())
    }

    /// Number of position slots that the window is divided into.
    pub open spec fn spec_position_slots(self) -> nat {
        match self {
            WindowSize::KB32 => 30,
            WindowSize::KB64 => 32,
            WindowSize::KB128 => 34,
            WindowSize::KB256 => 36,
            WindowSize::KB512 => 38,
            WindowSize::MB1 => 42,
            WindowSize::MB2 => 50,
            WindowSize::MB4 => 66,
            WindowSize::MB8 => 98,
            WindowSize::MB16 => 162,
            WindowSize::MB32 => 290,
        }
    }

    /// The window size determines the number of window subdivisions, or position slots.
    pub fn position_slots(&self) -> (r: usize)
        ensures
            r == self.spec_position_slots(),
    {
        match self {
            WindowSize::KB32 => 30,
            WindowSize::KB64 => 32,
            WindowSize::KB128 => 34,
            WindowSize::KB256 => 36,
            WindowSize::KB512 => 38,
            WindowSize::MB1 => 42,
            WindowSize::MB2 => 50,
            WindowSize::MB4 => 66,
            WindowSize::MB8 => 98,
            WindowSize::MB16 => 162,
            WindowSize::MB32 => 290,
        }
    }

    /// Number of bytes in the window.
    pub fn value(&self) -> (r: usize)
        ensures
            r == self.spec_value(),
    {
        proof {
            lemma_window_pow2(*self);
        }
        match self {
            WindowSize::KB32 => 0x0000_8000,
            WindowSize::KB64 => 0x0001_0000,
            WindowSize::KB128 => 0x0002_0000,
            WindowSize::KB256 => 0x0004_0000,
            WindowSize::KB512 => 0x0008_0000,
            WindowSize::MB1 => 0x0010_0000,
            WindowSize::MB2 => 0x0020_0000,
            WindowSize::MB4 => 0x0040_0000,
            WindowSize::MB8 => 0x0080_0000,
            WindowSize::MB16 => 0x0100_0000,
            WindowSize::MB32 => 0x0200_0000,
        }
    }

    /// Creates a zero-filled window of this size, writing at its start.
    pub fn create_buffer(&self) -> (r: Window)
        ensures
            r.wf(),
            r.pos == 0,
            r.buffer@ == Seq::new(self.spec_value(), |i: int| 0u8),
    {
        let n = self.value();
        proof {
            lemma_window_pow2(*self);
        }
        let buffer = vec![0u8; n];
        let r = Window { pos: 0, buffer };
        assert(r.buffer@ =~= Seq::new(self.spec_value(), |i: int| 0u8));
        r
    }
}

/// A sliding window: the last `buffer.len()` bytes that were decompressed.
///
/// `pos` is where the next byte goes; the oldest byte sits at `pos` and the newest just
/// before it, wrapping around the end of `buffer`.
pub struct Window {
    pub pos: usize,
    pub buffer: Vec<u8>,
}

/// The window `w` after the bytes `s` were appended to it: the oldest `s.len()` bytes
/// leave, and `s` comes in at the end.
pub open spec fn shift_in(w: Seq<u8>, s: Seq<u8>) -> Seq<u8> {
    (w + s).subrange(s.len() as int, (w.len() + s.len()) as int)
}

/// The window `w` after `n` bytes were appended, each one a repetition of the byte found
/// `offset` positions back at the moment it is written (so that a run repeats itself when
/// `n` exceeds `offset`). An offset of 0 repeats the byte about to leave the window.
pub open spec fn repeat_back(w: Seq<u8>, offset: nat, n: nat) -> Seq<u8>
    decreases n,
{
    if n == 0 {
        w
    } else {
        let p = repeat_back(w, offset, (n - 1) as nat);
        shift_in(p, seq![p[(p.len() - offset) % (p.len() as int)]])
    }
}

/// Appending `a` and then `b` is appending `a + b`.
pub proof fn lemma_shift_in_twice(w: Seq<u8>, a: Seq<u8>, b: Seq<u8>)
    ensures
        shift_in(shift_in(w, a), b) =~= shift_in(w, a + b),
{
}

/// A copy from the window itself appends the `n` bytes it ends with.
pub proof fn lemma_repeat_back_shift(w: Seq<u8>, offset: nat, n: nat)
    requires
        n <= w.len(),
    ensures
        repeat_back(w, offset, n).len() == w.len(),
        repeat_back(w, offset, n) == shift_in(
            w,
            repeat_back(w, offset, n).subrange(w.len() - n, w.len() as int),
        ),
    decreases n,
{
    lemma_repeat_back_len(w, offset, n);
    if n == 0 {
        assert(shift_in(w, Seq::<u8>::empty()) =~= w);
        assert(w.subrange(w.len() as int, w.len() as int) =~= Seq::<u8>::empty());
    } else {
        let m = (n - 1) as nat;
        lemma_repeat_back_shift(w, offset, m);
        let p = repeat_back(w, offset, m);
        let b = p[(p.len() - offset) % (p.len() as int)];
        let q = repeat_back(w, offset, n);
        let l = w.len() as int;
        lemma_shift_in_twice(w, p.subrange(l - m, l), seq![b]);
        assert(q.subrange(l - n, l) =~= p.subrange(l - m, l) + seq![b]);
    }
}

/// Copying with offset 1 repeats the newest byte: on a window whose last byte is `b`,
/// copying `n` bytes from offset 1 appends `n` copies of `b`.
pub proof fn lemma_copy_offset_one(w: Seq<u8>, n: nat)
    requires
        w.len() > 0,
    ensures
        repeat_back(w, 1, n) == shift_in(w, Seq::new(n, |i: int| w.last())),
    decreases n,
{
    if n == 0 {
        assert(shift_in(w, Seq::new(0, |i: int| w.last())) =~= w);
    } else {
        let m = (n - 1) as nat;
        lemma_copy_offset_one(w, m);
        lemma_repeat_back_len(w, 1, m);
        let p = repeat_back(w, 1, m);
        let l = p.len() as int;
        vstd::arithmetic::div_mod::lemma_small_mod((l - 1) as nat, l as nat);
        assert(p[l - 1] == w.last());
        lemma_shift_in_twice(w, Seq::new(m, |i: int| w.last()), seq![w.last()]);
        assert(Seq::new(m, |i: int| w.last()) + seq![w.last()] =~= Seq::new(n, |i: int| w.last()));
    }
}

/// A copy from the window itself keeps the window's size.
pub proof fn lemma_repeat_back_len(w: Seq<u8>, offset: nat, n: nat)
    ensures
        repeat_back(w, offset, n).len() == w.len(),
    decreases n,
{
    if n > 0 {
        lemma_repeat_back_len(w, offset, (n - 1) as nat);
    }
}

impl View for Window {
    type V = Seq<u8>;

    /// The window's bytes from the oldest to the newest.
    open spec fn view(&self) -> Seq<u8> {
        self.buffer@.subrange(self.pos as int, self.buffer@.len() as int) + self.buffer@.subrange(
            0,
            self.pos as int,
        )
    }
}

impl Window {
    /// The window holds at least a chunk, at most the largest window size, and writes inside
    /// its buffer.
    pub open spec fn wf(&self) -> bool {
        &&& MAX_CHUNK_SIZE <= self.buffer.len() <= 0x200_0000
        &&& self.pos < self.buffer.len()
    }

    /// The window's byte `j` sits `j` places after `pos`, wrapping.
    proof fn lemma_view_index(&self, j: int)
        requires
            self.wf(),
            0 <= j < self.buffer.len(),
        ensures
            self@.len() == self.buffer.len(),
            self@[j] == self.buffer@[(self.pos + j) % (self.buffer.len() as int)],
    {
        let l = self.buffer.len() as int;
        lemma_mod_wrap(self.pos + j, l);
    }

    /// Moves the write position on by `delta`, wrapping.
    fn advance(&mut self, delta: usize)
        requires
            old(self).wf(),
            delta <= old(self).buffer.len(),
        ensures
            final(self).wf(),
            final(self).buffer == old(self).buffer,
            final(self).pos == (old(self).pos + delta) % (old(self).buffer.len() as int),
    {
        let l = self.buffer.len();
        self.pos += delta;
        if self.pos >= l {
            self.pos -= l;
        }
        proof {
            lemma_mod_wrap(old(self).pos + delta, l as int);
        }
    }

    /// Appends one byte.
    pub fn push(&mut self, value: u8)
        requires
            old(self).wf(),
        ensures
            final(self).wf(),
            final(self).buffer.len() == old(self).buffer.len(),
            final(self).pos == (old(self).pos + 1) % (old(self).buffer.len() as int),
            final(self)@ == shift_in(old(self)@, seq![value]),
    {
        let ghost old_buf = self.buffer@;
        let ghost p = self.pos as int;
        self.buffer.set(self.pos, value);
        self.advance(1);
        proof {
            let l = old_buf.len() as int;
            let nb = old_buf.update(p, value);
            if p + 1 < l {
                vstd::arithmetic::div_mod::lemma_small_mod((p + 1) as nat, l as nat);
                assert(self@ =~= nb.subrange(p + 1, l) + nb.subrange(0, p + 1));
            } else {
                vstd::arithmetic::div_mod::lemma_mod_self_0(l);
                assert(self@ =~= nb);
            }
            assert(self@ =~= shift_in(old(self)@, seq![value]));
        }
    }

    /// Appends `length` bytes, each a copy of the byte `offset` positions back, so that an
    /// overlapping copy repeats its pattern.
    pub fn copy_from_self(&mut self, offset: usize, length: usize)
        requires
            old(self).wf(),
            offset <= old(self).buffer.len(),
        ensures
            final(self).wf(),
            final(self).buffer.len() == old(self).buffer.len(),
            final(self).pos == (old(self).pos + length) % (old(self).buffer.len() as int),
            final(self)@ == repeat_back(old(self)@, offset as nat, length as nat),
    {
        let l = self.buffer.len();
        let ghost w0 = self@;
        let ghost p0 = self.pos as int;
        let mut i: usize = 0;
        proof {
            vstd::arithmetic::div_mod::lemma_small_mod(p0 as nat, l as nat);
        }
        while i < length
            invariant
                self.wf(),
                self.buffer.len() == l,
                offset <= l,
                i <= length,
                self.pos == (p0 + i) % (l as int),
                self@ == repeat_back(w0, offset as nat, i as nat),
            decreases length - i,
        {
            let src = (self.pos + l - offset) % l;
            let b = self.buffer[src];
            proof {
                lemma_repeat_back_len(w0, offset as nat, i as nat);
                let j = (l - offset) % (l as int);
                self.lemma_view_index(j);
                vstd::arithmetic::div_mod::lemma_add_mod_noop(self.pos as int, l - offset, l as int);
                vstd::arithmetic::div_mod::lemma_mod_twice(self.pos as int, l as int);
                vstd::arithmetic::div_mod::lemma_small_mod(self.pos as nat, l as nat);
            }
            self.push(b);
            proof {
                let q = p0 + i;
                vstd::arithmetic::div_mod::lemma_add_mod_noop(q, 1, l as int);
                vstd::arithmetic::div_mod::lemma_small_mod(1, l as nat);
            }
            i += 1;
        }
    }

    /// Appends the next `len` raw bytes of the bitstream. When they would wrap around the
    /// end of the buffer, the buffer is first shifted towards its front so that they end
    /// exactly at its end.
    pub fn copy_from_bitstream(&mut self, bitstream: &mut Bitstream, len: usize) -> (r: Result<
        (),
        DecodeFailed,
    >)
        requires
            old(self).wf(),
            old(bitstream).wf(),
        ensures
            final(self).wf(),
            final(bitstream).wf(),
            final(self).buffer.len() == old(self).buffer.len(),
            len > old(self).buffer.len() ==> r == Err::<(), DecodeFailed>(
                DecodeFailed::WindowTooSmall,
            ),
            len <= old(self).buffer.len() && old(bitstream)@.rest.len() < len ==> r == Err::<
                (),
                DecodeFailed,
            >(DecodeFailed::UnexpectedEof),
            len <= old(self).buffer.len() && old(bitstream)@.rest.len() >= len ==> {
                &&& r.is_ok()
                &&& final(self)@ == shift_in(old(self)@, old(bitstream)@.rest.take(len as int))
                &&& final(self).pos == if old(self).pos + len >= old(self).buffer.len() {
                    0
                } else {
                    old(self).pos + len
                }
                &&& final(bitstream)@ == (BitState {
                    pending: old(bitstream)@.pending,
                    rest: old(bitstream)@.rest.skip(len as int),
                })
            },
    {
        let l = self.buffer.len();
        if len > l {
            return Err(DecodeFailed::WindowTooSmall);
        }
        if bitstream.remaining_bytes() < len {
            return Err(DecodeFailed::UnexpectedEof);
        }
        let ghost b0 = self.buffer@;
        let ghost p0 = self.pos as int;
        let ghost data = bitstream@.rest.take(len as int);
        let ghost s0 = bitstream@;
        if self.pos + len > l {
            let shift = self.pos + len - l;
            let mut k: usize = 0;
            while k < l - shift
                invariant
                    self.buffer@.len() == l,
                    l == b0.len(),
                    self.pos == p0,
                    0 < shift <= p0 < l,
                    k <= l - shift,
                    forall|j: int| 0 <= j < k ==> self.buffer@[j] == b0[j + shift],
                    forall|j: int| k <= j < l ==> self.buffer@[j] == b0[j],
                decreases l - shift - k,
            {
                let b = self.buffer[k + shift];
                self.buffer.set(k, b);
                k += 1;
            }
            self.pos = self.pos - shift;
        }
        let ghost b1 = self.buffer@;
        let ghost p1 = self.pos as int;
        let ghost wrapped = p0 + len > l;
        assert(wrapped ==> forall|j: int|
            0 <= j < l - (p0 + len - l) ==> b1[j] == b0[j + (p0 + len - l)]);
        assert(!wrapped ==> b1 == b0);
        assert(s0.rest.skip(0) =~= s0.rest);
        let mut i: usize = 0;
        while i < len
            invariant
                self.buffer@.len() == l,
                self.pos == p1,
                p1 + len <= l,
                i <= len,
                len <= s0.rest.len(),
                data == s0.rest.take(len as int),
                bitstream.wf(),
                bitstream@ == (BitState { pending: s0.pending, rest: s0.rest.skip(i as int) }),
                forall|j: int| 0 <= j < l && !(p1 <= j < p1 + i) ==> self.buffer@[j] == b1[j],
                forall|j: int| p1 <= j < p1 + i ==> self.buffer@[j] == data[j - p1],
            decreases len - i,
        {
            let byte = bitstream.read_byte();
            if let Some(b) = byte {
                self.buffer.set(self.pos + i, b);
                assert(bitstream@.rest =~= s0.rest.skip(i + 1));
            }
            i += 1;
        }
        let ghost b2 = self.buffer@;
        self.advance(len);
        proof {
            lemma_mod_wrap(p1 + len, l as int);
            let w0 = old(self)@;
            if p0 + len > l {
                let shift = p0 + len - l;
                assert forall|j: int| 0 <= j < l implies b2[j] == (b0.subrange(shift, p0)
                    + data)[j] by {
                    if j < p1 {
                        assert(b2[j] == b1[j]);
                        assert(b1[j] == b0[j + shift]);
                    } else {
                        assert(b2[j] == data[j - p1]);
                    }
                }
                assert(b2 =~= b0.subrange(shift, p0) + data);
                assert(self@ =~= b2);
            } else if p0 + len == l {
                assert(b2 =~= b0.subrange(0, p0) + data);
                assert(self@ =~= b2);
            } else {
                assert(self@ =~= b0.subrange(p0 + len, l as int) + b0.subrange(0, p0) + data);
            }
            assert(self@ =~= shift_in(w0, data));
        }
        Ok(())
    }

    /// Rotates the buffer contents `shift` places towards its end, so that the byte at `i`
    /// moves to `i + shift` (wrapping), and moves `pos` along, leaving the window's bytes as
    /// they were.
    fn rotate(&mut self, shift: usize)
        requires
            old(self).wf(),
            0 < shift < old(self).buffer.len(),
        ensures
            final(self).wf(),
            final(self).buffer.len() == old(self).buffer.len(),
            final(self).pos == (old(self).pos + shift) % (old(self).buffer.len() as int),
            final(self)@ == old(self)@,
    {
        let l = self.buffer.len();
        let ghost b0 = self.buffer@;
        let mut tmp: Vec<u8> = Vec::new();
        let mut k: usize = l - shift;
        while k < l
            invariant
                self.buffer@ == b0,
                self.pos == old(self).pos,
                l == b0.len(),
                0 < shift < l,
                l - shift <= k <= l,
                tmp@ == b0.subrange(l - shift, k as int),
            decreases l - k,
        {
            tmp.push(self.buffer[k]);
            k += 1;
            assert(tmp@ =~= b0.subrange(l - shift, k as int));
        }
        let mut k: usize = l - shift;
        while k > 0
            invariant
                self.buffer@.len() == l,
                self.pos == old(self).pos,
                l == b0.len(),
                0 < shift < l,
                k <= l - shift,
                forall|t: int| k <= t < l - shift ==> self.buffer@[t + shift] == b0[t],
                forall|t: int| 0 <= t < k + shift ==> self.buffer@[t] == b0[t],
            decreases k,
        {
            k -= 1;
            let b = self.buffer[k];
            self.buffer.set(k + shift, b);
        }
        let mut k: usize = 0;
        while k < shift
            invariant
                self.buffer@.len() == l,
                self.pos == old(self).pos,
                l == b0.len(),
                tmp@ == b0.subrange(l - shift, l as int),
                0 < shift < l,
                k <= shift,
                forall|t: int| 0 <= t < l - shift ==> self.buffer@[t + shift] == b0[t],
                forall|t: int| 0 <= t < k ==> self.buffer@[t] == b0[l - shift + t],
            decreases shift - k,
        {
            self.buffer.set(k, tmp[k]);
            k += 1;
        }
        let ghost b1 = self.buffer@;
        assert forall|i: int| 0 <= i < l implies b1[i] == b0[(i + l - shift) % (l as int)] by {
            lemma_mod_wrap(i + l - shift, l as int);
            if i >= shift {
                assert(b1[(i - shift) + shift] == b0[i - shift]);
            }
        }
        let ghost w0 = old(self)@;
        let ghost p0 = old(self).pos as int;
        self.advance(shift);
        assert forall|j: int| 0 <= j < l implies #[trigger] self@[j] == w0[j] by {
            self.lemma_view_index(j);
            old(self).lemma_view_index(j);
            let li = l as int;
            let x = p0 + shift + j;
            vstd::arithmetic::div_mod::lemma_add_mod_noop(p0 + shift, j, li);
            vstd::arithmetic::div_mod::lemma_small_mod(j as nat, l as nat);
            vstd::arithmetic::div_mod::lemma_mod_twice(p0 + shift, li);
            let idx = x % li;
            vstd::arithmetic::div_mod::lemma_mod_bound(x, li);
            vstd::arithmetic::div_mod::lemma_add_mod_noop(x, li - shift, li);
            vstd::arithmetic::div_mod::lemma_small_mod((li - shift) as nat, l as nat);
            vstd::arithmetic::div_mod::lemma_mod_add_multiples_vanish(p0 + j, li);
        }
        assert(self@ =~= w0);
    }

    /// The last `len` bytes of the window as one slice, oldest first. The buffer is rotated
    /// first if those bytes wrap around its end.
    pub fn past_view(&mut self, len: usize) -> (r: Result<&[u8], DecodeFailed>)
        requires
            old(self).wf(),
        ensures
            final(self).wf(),
            final(self).buffer.len() == old(self).buffer.len(),
            final(self)@ == old(self)@,
            len > MAX_CHUNK_SIZE ==> r == Err::<&[u8], DecodeFailed>(DecodeFailed::ChunkTooLong),
            len <= MAX_CHUNK_SIZE ==> r.is_ok() && r.unwrap()@ == old(self)@.subrange(
                old(self)@.len() - len,
                old(self)@.len() as int,
            ),
    {
        if len > MAX_CHUNK_SIZE {
            return Err(DecodeFailed::ChunkTooLong);
        }
        let l = self.buffer.len();
        if self.pos != 0 && len > self.pos {
            self.rotate(len - self.pos);
            proof {
                lemma_mod_wrap(len as int, l as int);
            }
        }
        let p = if self.pos == 0 {
            l
        } else {
            self.pos
        };
        assert(self@.subrange(l - len, l as int) =~= self.buffer@.subrange(p - len, p as int));
        Ok(&self.buffer[p - len..p])
    }
}

/// Reducing a number below twice the modulus takes at most one subtraction.
pub proof fn lemma_mod_wrap(x: int, l: int)
    requires
        0 < l,
        0 <= x < 2 * l,
    ensures
        x % l == if x < l { x } else { x - l },
{
    if x < l {
        vstd::arithmetic::div_mod::lemma_fundamental_div_mod_converse(x, l, 0, x);
    } else {
        vstd::arithmetic::div_mod::lemma_fundamental_div_mod_converse(x, l, 1, x - l);
    }
}

/// A window holds at least one chunk and at most 32 MiB.
pub proof fn lemma_window_value(w: WindowSize)
    ensures
        MAX_CHUNK_SIZE <= w.spec_value() <= 0x200_0000,
        30 <= w.spec_position_slots() <= 290,
{
    lemma_window_pow2(w);
}

/// The window sizes in bytes.
proof fn lemma_window_pow2(w: WindowSize)
    ensures
        w.spec_value() == match w {
            WindowSize::KB32 => 0x0000_8000nat,
            WindowSize::KB64 => 0x0001_0000nat,
            WindowSize::KB128 => 0x0002_0000nat,
            WindowSize::KB256 => 0x0004_0000nat,
            WindowSize::KB512 => 0x0008_0000nat,
            WindowSize::MB1 => 0x0010_0000nat,
            WindowSize::MB2 => 0x0020_0000nat,
            WindowSize::MB4 => 0x0040_0000nat,
            WindowSize::MB8 => 0x0080_0000nat,
            WindowSize::MB16 => 0x0100_0000nat,
            WindowSize::MB32 => 0x0200_0000nat,
        },
{
    vstd::arithmetic::power2::lemma2_to64();
    vstd::arithmetic::power2::lemma2_to64_rest();
}

} // verus!
