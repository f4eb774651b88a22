//! Reader for the LZXD bitstream.
//!
//! The stream is a sequence of little-endian 16-bit words, and each word is read from its
//! most significant bit down. Given the bits a, b, c, ..., z, A, ..., F in stream order, the
//! bytes hold them as `[i..p | a..h | y..F | q..x]`.
use vstd::arithmetic::power2::pow2;
use vstd::prelude::*;

use crate::DecodeFailed;

verus! {

/// The 16-bit word stored little-endian in the bytes `lo`, `hi`.
pub open spec fn le_word(lo: u8, hi: u8) -> u16 {
    ((lo as u16) | ((hi as u16) << 8u16)) as u16
}

/// The 16 bits of a word, most significant first.
pub open spec fn word_bits(w: u16) -> Seq<bool> {
    Seq::new(16, |i: int| ((w as u32) >> ((15 - i) as u32)) & 1u32 == 1u32)
}

/// The bits that whole words of `bytes` carry, in stream order. A trailing odd byte carries
/// none.
pub open spec fn stream_bits(bytes: Seq<u8>) -> Seq<bool>
    decreases bytes.len(),
{
    if bytes.len() < 2 {
        Seq::empty()
    } else {
        word_bits(le_word(bytes[0], bytes[1])) + stream_bits(bytes.skip(2))
    }
}

/// The number that the bits `s` spell, most significant first.
pub open spec fn bits_value(s: Seq<bool>) -> nat
    decreases s.len(),
{
    if s.len() == 0 {
        0
    } else {
        2 * bits_value(s.drop_last()) + if s.last() {
            1nat
        } else {
            0nat
        }
    }
}

/// `n` zero bits.
pub open spec fn zero_bits(n: nat) -> Seq<bool> {
    Seq::new(n, |i: int| false)
}

/// What a reader has left: the unread bits of the current word, then the unread bytes.
pub struct BitState {
    pub pending: Seq<bool>,
    pub rest: Seq<u8>,
}

impl BitState {
    /// All bits still to be read, in order.
    pub open spec fn bits(self) -> Seq<bool> {
        self.pending + stream_bits(self.rest)
    }

    /// Reading `k <= 16` bits: they come from the pending bits, and from the next word once
    /// those run out, which then becomes the current word. `None` when no word is left.
    pub open spec fn read_word(self, k: nat) -> Option<(nat, BitState)> {
        if k <= self.pending.len() {
            Some((bits_value(self.pending.take(k as int)), BitState {
                pending: self.pending.skip(k as int),
                rest: self.rest,
            }))
        } else if self.rest.len() >= 2 {
            let w = word_bits(le_word(self.rest[0], self.rest[1]));
            let m = k - self.pending.len();
            Some((bits_value(self.pending + w.take(m)), BitState {
                pending: w.skip(m),
                rest: self.rest.skip(2),
            }))
        } else {
            None
        }
    }

    /// Reading `k <= 32` bits: up to 16 at once; more as a first read of 16 bits, which
    /// gives the high part, and a second read of the others.
    pub open spec fn read(self, k: nat) -> Option<(nat, BitState)> {
        if k <= 16 {
            self.read_word(k)
        } else {
            match self.read_word(16) {
                Some((hi, s1)) => match s1.read_word((k - 16) as nat) {
                    Some((lo, s2)) => Some((hi * pow2((k - 16) as nat) + lo, s2)),
                    None => None,
                },
                None => None,
            }
        }
    }

    /// A reader holds at most one word's unread bits.
    pub open spec fn wf(self) -> bool {
        self.pending.len() <= 16
    }

    /// Reading a 32-bit little-endian integer: its low word first, then its high word.
    pub open spec fn read_u32_le(self) -> Option<(nat, BitState)> {
        match self.read_word(16) {
            Some((lo, s1)) => match s1.read_word(16) {
                Some((hi, s2)) => Some((lo + hi * 0x10000, s2)),
                None => None,
            },
            None => None,
        }
    }

    /// Aligning to the next word: the rest of the current word is dropped, or when none of
    /// it is left, a whole word of padding is read.
    pub open spec fn align(self) -> Option<BitState> {
        if self.pending.len() > 0 {
            Some(BitState { pending: Seq::empty(), rest: self.rest })
        } else {
            match self.read_word(16) {
                Some((_, st)) => Some(st),
                None => None,
            }
        }
    }

    /// A value read in `k` bits is below `2^k`.
    pub proof fn lemma_read_bound(self, k: nat)
        requires
            self.wf(),
            k <= 32,
        ensures
            self.read(k) matches Some((v, _)) ==> v < pow2(k),
    {
        lemma_read_bits(self, k);
        if self.read(k) is Some {
            lemma_bits_value_bound(self.bits().take(k as int));
        }
    }

    /// The value of the next `k` bits, where the stream is taken to go on with zeros.
    pub open spec fn peek(self, k: nat) -> nat {
        bits_value((self.bits() + zero_bits(32)).take(k as int))
    }
}

/// A reader of bits and raw bytes over one compressed chunk.
pub struct Bitstream<'a> {
    buffer: &'a [u8],
    /// Index of the next unread byte of `buffer`.
    pos: usize,
    /// The current word, shifted so that its unread bits are the highest ones.
    n: u16,
    /// How many bits of `n` are still unread.
    pub remaining: u8,
}

impl<'a> View for Bitstream<'a> {
    type V = BitState;

    closed spec fn view(&self) -> BitState {
        BitState {
            pending: word_bits(self.n).take(self.remaining as int),
            rest: self.buffer@.skip(self.pos as int),
        }
    }
}

// Facts about bits of machine words, proved by the bit-vector solver.
proof fn bv_shr_step(x: u32, s: u32)
    by (bit_vector)
    requires
        x < 0x10000,
        s < 16,
    ensures
        x >> s == (x >> ((s + 1) as u32)) * 2 + ((x >> s) & 1),
        (x >> s) & 1 <= 1,
        x >> 16 == 0,
{
}

proof fn bv_shl_bit(x: u32, k: u32, i: u32)
    by (bit_vector)
    requires
        x < 0x10000,
        k <= 16,
        i + k < 16,
    ensures
        ((((x << k) & 0xffff) >> ((15 - i) as u32)) & 1) == ((x >> ((15 - i - k) as u32)) & 1),
        (x << k) & 0xffff == ((x << k) as u16) as u32,
{
}

proof fn bv_join(hi: u32, lo: u32, r: u32)
    by (bit_vector)
    requires
        hi < 0x10000,
        r <= 16,
        lo < (1u32 << r),
    ensures
        (hi << r) | lo == (hi << r) + lo,
{
}

proof fn bv_top_bits(x: u32, r: u32)
    by (bit_vector)
    requires
        x < 0x10000,
        r <= 16,
    ensures
        (x >> ((16 - r) as u32)) < (1u32 << r),
        (1u32 << r) <= 0x10000,
{
}

proof fn bv_le_word(lo: u8, hi: u8)
    by (bit_vector)
    ensures
        ((lo as u16) | ((hi as u16) << 8u16)) as u16 == (lo as u16) | ((hi as u16) << 8u16),
{
}

/// The first `k` bits of a word spell the word shifted right by `16 - k`.
pub proof fn lemma_word_bits_value(w: u16, k: nat)
    requires
        k <= 16,
    ensures
        bits_value(word_bits(w).take(k as int)) == ((w as u32) >> ((16 - k) as u32)),
    decreases k,
{
    let x = w as u32;
    if k == 0 {
        bv_shr_step(x, 0);
        assert(word_bits(w).take(0) =~= Seq::<bool>::empty());
    } else {
        lemma_word_bits_value(w, (k - 1) as nat);
        let s = word_bits(w).take(k as int);
        assert(s.drop_last() =~= word_bits(w).take(k - 1));
        let sh = (16 - k) as u32;
        bv_shr_step(x, sh);
        assert(s.last() == ((x >> sh) & 1u32 == 1u32));
        assert(((sh + 1) as u32) == ((16 - (k - 1)) as u32));
    }
}

/// Shifting a word left by `k` drops its first `k` bits.
pub proof fn lemma_word_bits_shift(w: u16, k: nat)
    requires
        k <= 16,
    ensures
        word_bits(((w as u32) << (k as u32)) as u16).take(16 - k) =~= word_bits(w).skip(
            k as int,
        ),
{
    let x = w as u32;
    assert forall|i: int| 0 <= i < 16 - k implies word_bits(((x << (k as u32)) as u16)).take(
        16 - k,
    )[i] == word_bits(w).skip(k as int)[i] by {
        bv_shl_bit(x, k as u32, i as u32);
    }
}

/// The value of two runs of bits written one after the other.
pub proof fn lemma_bits_value_append(a: Seq<bool>, b: Seq<bool>)
    ensures
        bits_value(a + b) == bits_value(a) * pow2(b.len()) + bits_value(b),
    decreases b.len(),
{
    if b.len() == 0 {
        assert(a + b =~= a);
        vstd::arithmetic::power2::lemma2_to64();
        assert(bits_value(a) * 1 == bits_value(a));
    } else {
        lemma_bits_value_append(a, b.drop_last());
        assert((a + b).drop_last() =~= a + b.drop_last());
        assert((a + b).last() == b.last());
        vstd::arithmetic::power2::lemma_pow2_unfold(b.len());
        let va = bits_value(a) as int;
        let p = pow2((b.len() - 1) as nat) as int;
        let vb = bits_value(b.drop_last()) as int;
        let lb: int = if b.last() {
            1
        } else {
            0
        };
        assert(bits_value(a + b) == 2 * (va * p + vb) + lb);
        assert(bits_value(b) == 2 * vb + lb);
        assert(pow2(b.len()) == 2 * p);
        assert(2 * (va * p + vb) + lb == va * (2 * p) + (2 * vb + lb)) by (nonlinear_arith);
    }
}

/// Zero bits spell zero.
pub proof fn lemma_bits_value_zeros(n: nat)
    ensures
        bits_value(zero_bits(n)) == 0,
    decreases n,
{
    if n > 0 {
        assert(zero_bits(n).drop_last() =~= zero_bits((n - 1) as nat));
        lemma_bits_value_zeros((n - 1) as nat);
    }
}

/// `k` bits spell a number below `2^k`.
pub proof fn lemma_bits_value_bound(s: Seq<bool>)
    ensures
        bits_value(s) < pow2(s.len()),
    decreases s.len(),
{
    vstd::arithmetic::power2::lemma2_to64();
    if s.len() > 0 {
        lemma_bits_value_bound(s.drop_last());
        vstd::arithmetic::power2::lemma_pow2_unfold(s.len());
    }
}

/// Reading one word's worth of bits takes them off the front of the stream.
pub proof fn lemma_read_word_bits(st: BitState, k: nat)
    requires
        st.wf(),
        k <= 16,
    ensures
        st.read_word(k).is_some() <==> k <= st.bits().len(),
        st.read_word(k) matches Some((v, s1)) ==> {
            &&& v == bits_value(st.bits().take(k as int))
            &&& s1.bits() == st.bits().skip(k as int)
            &&& s1.wf()
        },
{
    let b = st.bits();
    if k <= st.pending.len() {
        assert(b.take(k as int) =~= st.pending.take(k as int));
        assert(b.skip(k as int) =~= st.pending.skip(k as int) + stream_bits(st.rest));
    } else if st.rest.len() >= 2 {
        let w = word_bits(le_word(st.rest[0], st.rest[1]));
        let m = (k - st.pending.len()) as int;
        assert(stream_bits(st.rest) == w + stream_bits(st.rest.skip(2)));
        assert(b.take(k as int) =~= st.pending + w.take(m));
        assert(b.skip(k as int) =~= w.skip(m) + stream_bits(st.rest.skip(2)));
    } else {
        assert(stream_bits(st.rest) =~= Seq::<bool>::empty());
        assert(b =~= st.pending);
    }
}

/// Reading up to 32 bits takes them off the front of the stream, and fails exactly when
/// the stream holds fewer.
pub proof fn lemma_read_bits(st: BitState, k: nat)
    requires
        st.wf(),
        k <= 32,
    ensures
        st.read(k).is_some() <==> k <= st.bits().len(),
        st.read(k) matches Some((v, s1)) ==> {
            &&& v == bits_value(st.bits().take(k as int))
            &&& s1.bits() == st.bits().skip(k as int)
            &&& s1.wf()
        },
{
    let b = st.bits();
    if k <= 16 {
        lemma_read_word_bits(st, k);
    } else {
        lemma_read_word_bits(st, 16);
        if let Some((hi, s1)) = st.read_word(16) {
            lemma_read_word_bits(s1, (k - 16) as nat);
            if let Some((lo, s2)) = s1.read_word((k - 16) as nat) {
                assert(b.take(k as int) =~= b.take(16) + b.skip(16).take(k - 16));
                assert(b.skip(16).take(k - 16).len() == k - 16);
                lemma_bits_value_append(b.take(16), b.skip(16).take(k - 16));
                assert(s2.bits() =~= b.skip(k as int));
            }
        }
    }
}

/// Reading `n` bits and then `m` more gives what one read of `n + m` bits gives: the first
/// bits read are the high part of the value, and the reader is left at the same bits.
pub proof fn lemma_read_split(st: BitState, n: nat, m: nat)
    requires
        st.wf(),
        n + m <= 32,
    ensures
        st.read(n + m).is_some() <==> (st.read(n) matches Some((_, s1)) && s1.read(m).is_some()),
        st.read(n + m) matches Some((v, s)) ==> {
            let (v1, s1) = st.read(n).unwrap();
            let (v2, s2) = s1.read(m).unwrap();
            &&& v == v1 * pow2(m) + v2
            &&& s.bits() == s2.bits()
        },
{
    let b = st.bits();
    lemma_read_bits(st, n + m);
    lemma_read_bits(st, n);
    if let Some((v1, s1)) = st.read(n) {
        lemma_read_bits(s1, m);
        if n + m <= b.len() {
            assert(b.take((n + m) as int) =~= b.take(n as int) + s1.bits().take(m as int));
            lemma_bits_value_append(b.take(n as int), s1.bits().take(m as int));
            assert(s1.bits().skip(m as int) =~= b.skip((n + m) as int));
        }
    }
}

/// Peeking `k` bits gives the value that reading them would give, wherever the read
/// succeeds.
pub proof fn lemma_peek_is_read(st: BitState, k: nat)
    requires
        st.wf(),
        k <= 32,
        st.read(k).is_some(),
    ensures
        st.peek(k) == st.read(k).unwrap().0,
{
    lemma_read_bits(st, k);
    assert((st.bits() + zero_bits(32)).take(k as int) =~= st.bits().take(k as int));
}

/// Powers of two grow with the exponent.
pub proof fn lemma_pow2_le(a: nat, b: nat)
    requires
        a <= b,
    ensures
        pow2(a) <= pow2(b),
{
    if a < b {
        vstd::arithmetic::power2::lemma_pow2_strictly_increases(a, b);
    }
}

/// Joining `a` high bits and `b` low bits by shift and or gives their value.
proof fn lemma_join(hi: u32, lo: u32, a: nat, b: nat)
    requires
        hi < pow2(a),
        lo < pow2(b),
        a + b <= 16,
    ensures
        (hi << (b as u32)) | lo == hi * pow2(b) + lo,
        hi * pow2(b) + lo < pow2(a + b),
        pow2(a + b) <= 0x10000,
{
    vstd::arithmetic::power2::lemma_pow2_adds(a, b);
    lemma_pow2_le(a + b, 16);
    vstd::arithmetic::power2::lemma2_to64();
    vstd::arithmetic::mul::lemma_mul_inequality(hi as int + 1, pow2(a) as int, pow2(b) as int);
    vstd::arithmetic::mul::lemma_mul_is_distributive_add_other_way(
        pow2(b) as int,
        hi as int,
        1,
    );
    vstd::bits::lemma_u32_shl_is_mul(hi, b as u32);
    vstd::bits::lemma_u32_shl_is_mul(1, b as u32);
    bv_join(hi, lo, b as u32);
}

/// Joining 16 high bits and `b <= 16` low bits by shift and or gives their value.
proof fn lemma_join32(hi: u32, lo: u32, b: nat)
    requires
        hi < 0x10000,
        lo < pow2(b),
        b <= 16,
    ensures
        (hi << (b as u32)) | lo == hi * pow2(b) + lo,
{
    vstd::arithmetic::power2::lemma2_to64();
    lemma_pow2_le(b, 16);
    let p = pow2(b) as int;
    assert(hi * p <= 0xffff * 0x10000) by (nonlinear_arith)
        requires
            0 <= hi <= 0xffff,
            0 <= p <= 0x10000,
    ;
    vstd::bits::lemma_u32_shl_is_mul(hi, b as u32);
    vstd::bits::lemma_u32_shl_is_mul(1, b as u32);
    bv_join(hi, lo, b as u32);
}

/// The top `r` bits of a word are below `2^r`.
proof fn lemma_top_bits(x: u32, r: nat)
    requires
        x < 0x10000,
        r <= 16,
    ensures
        (x >> ((16 - r) as u32)) < pow2(r),
{
    bv_top_bits(x, r as u32);
    lemma_pow2_le(r, 16);
    vstd::arithmetic::power2::lemma2_to64();
    vstd::bits::lemma_u32_shl_is_mul(1, r as u32);
}

impl<'a> Bitstream<'a> {
    /// The counters stay inside the current word and the buffer.
    pub closed spec fn wf(&self) -> bool {
        &&& self.remaining <= 16
        &&& self.pos <= self.buffer.len()
    }

    /// A reader at the start of `buffer`.
    pub fn new(buffer: &'a [u8]) -> (r: Self)
        ensures
            r.wf(),
            r@.pending.len() == 0,
            r@.rest == buffer@,
    {
        let r = Bitstream { buffer, pos: 0, n: 0, remaining: 0 };
        assert(r@.rest =~= buffer@);
        r
    }

    /// Makes the next word the current one.
    fn advance_buffer(&mut self) -> (r: Result<(), DecodeFailed>)
        requires
            old(self).wf(),
        ensures
            final(self).wf(),
            final(self).buffer == old(self).buffer,
            old(self)@.rest.len() >= 2 ==> {
                &&& r.is_ok()
                &&& final(self).remaining == 16
                &&& final(self).n == le_word(old(self)@.rest[0], old(self)@.rest[1])
                &&& final(self).pos == old(self).pos + 2
            },
            old(self)@.rest.len() < 2 ==> r == Err::<(), DecodeFailed>(DecodeFailed::UnexpectedEof),
    {
        if self.buffer.len() - self.pos < 2 {
            return Err(DecodeFailed::UnexpectedEof);
        }
        let lo = self.buffer[self.pos];
        let hi = self.buffer[self.pos + 1];
        proof {
            bv_le_word(lo, hi);
        }
        self.n = (lo as u16) | ((hi as u16) << 8u16);
        self.remaining = 16;
        self.pos = self.pos + 2;
        Ok(())
    }

    /// A well-formed reader holds at most a word of unread bits.
    pub proof fn lemma_view_wf(&self)
        requires
            self.wf(),
        ensures
            self@.wf(),
    {
    }

    /// Reads up to 16 bits (one word).
    fn read_bits_oneword(&mut self, bits: u8) -> (r: Result<u16, DecodeFailed>)
        requires
            old(self).wf(),
            bits <= 16,
        ensures
            final(self).wf(),
            match old(self)@.read_word(bits as nat) {
                Some((v, st)) => r.is_ok() && r.unwrap() as nat == v && final(self)@ == st,
                None => r == Err::<u16, DecodeFailed>(DecodeFailed::UnexpectedEof),
            },
    {
        let ghost st0 = self@;
        let ghost n0 = self.n;
        let x = self.n as u32;
        if bits <= self.remaining {
            let v = x >> ((16 - bits) as u32);
            self.n = (x << (bits as u32)) as u16;
            self.remaining = self.remaining - bits;
            proof {
                lemma_word_bits_value(n0, bits as nat);
                lemma_word_bits_shift(n0, bits as nat);
                lemma_top_bits(x, bits as nat);
                lemma_pow2_le(bits as nat, 16);
                vstd::arithmetic::power2::lemma2_to64();
                assert(st0.pending.take(bits as int) =~= word_bits(n0).take(bits as int));
                assert(self@.pending =~= st0.pending.skip(bits as int));
            }
            Ok(v as u16)
        } else {
            let rem = self.remaining;
            let hi = x >> ((16 - rem) as u32);
            let rest = bits - rem;
            self.advance_buffer()?;
            let ghost n1 = self.n;
            let y = self.n as u32;
            let lo = y >> ((16 - rest) as u32);
            self.n = (y << (rest as u32)) as u16;
            self.remaining = 16 - rest;
            proof {
                lemma_word_bits_value(n0, rem as nat);
                assert(st0.pending =~= word_bits(n0).take(rem as int));
                lemma_word_bits_value(n1, rest as nat);
                lemma_word_bits_shift(n1, rest as nat);
                lemma_top_bits(x, rem as nat);
                lemma_top_bits(y, rest as nat);
                lemma_join(hi, lo, rem as nat, rest as nat);
                lemma_bits_value_append(st0.pending, word_bits(n1).take(rest as int));
                assert(self@.pending =~= word_bits(n1).skip(rest as int));
                assert(self@.rest =~= st0.rest.skip(2));
            }
            Ok(((hi << (rest as u32)) | lo) as u16)
        }
    }

    /// Reads one bit.
    pub fn read_bit(&mut self) -> (r: Result<u16, DecodeFailed>)
        requires
            old(self).wf(),
        ensures
            final(self).wf(),
            match old(self)@.read(1) {
                Some((v, st)) => r.is_ok() && r.unwrap() as nat == v && final(self)@ == st,
                None => r == Err::<u16, DecodeFailed>(DecodeFailed::UnexpectedEof),
            },
    {
        self.read_bits_oneword(1)
    }

    /// Reads the next raw byte, ignoring the bit reader's current word.
    pub fn read_byte(&mut self) -> (r: Option<u8>)
        requires
            old(self).wf(),
        ensures
            final(self).wf(),
            old(self)@.rest.len() == 0 ==> r.is_none() && final(self)@ == old(self)@,
            old(self)@.rest.len() > 0 ==> r == Some(old(self)@.rest[0]) && final(self)@
                == (BitState { pending: old(self)@.pending, rest: old(self)@.rest.skip(1) }),
    {
        if self.pos >= self.buffer.len() {
            return None;
        }
        let byte = self.buffer[self.pos];
        self.pos = self.pos + 1;
        assert(self@.rest =~= old(self)@.rest.skip(1));
        Some(byte)
    }

    /// Reads up to 32 bits; past 16, the first 16 bits read are the high part.
    pub fn read_bits(&mut self, bits: u8) -> (r: Result<u32, DecodeFailed>)
        requires
            old(self).wf(),
            bits <= 32,
        ensures
            final(self).wf(),
            match old(self)@.read(bits as nat) {
                Some((v, st)) => r == Ok::<u32, DecodeFailed>(v as u32) && final(self)@ == st,
                None => r == Err::<u32, DecodeFailed>(DecodeFailed::UnexpectedEof),
            },
    {
        if bits <= 16 {
            let w = self.read_bits_oneword(bits)?;
            Ok(w as u32)
        } else {
            let ghost st0 = self@;
            let w0 = self.read_bits_oneword(16)?;
            let ghost st1 = self@;
            let w1 = self.read_bits_oneword(bits - 16)?;
            proof {
                self.lemma_view_wf();
                lemma_read_word_bits(st1, (bits - 16) as nat);
                let m = (bits - 16) as nat;
                lemma_bits_value_bound(st1.bits().take(m as int));
                lemma_join32(w0 as u32, w1 as u32, m);
            }
            Ok(((w0 as u32) << ((bits - 16) as u32)) | (w1 as u32))
        }
    }

    /// Peeks up to 16 bits (one word); missing words count as zeros.
    fn peek_bits_oneword(&self, bits: u8) -> (r: u16)
        requires
            self.wf(),
            bits <= 16,
        ensures
            r as nat == self@.peek(bits as nat),
    {
        let x = self.n as u32;
        let ghost b = self@.bits() + zero_bits(32);
        if bits <= self.remaining {
            let v = x >> ((16 - bits) as u32);
            proof {
                lemma_word_bits_value(self.n, bits as nat);
                lemma_top_bits(x, bits as nat);
                lemma_pow2_le(bits as nat, 16);
                vstd::arithmetic::power2::lemma2_to64();
                assert(b.take(bits as int) =~= word_bits(self.n).take(bits as int));
            }
            v as u16
        } else {
            let rem = self.remaining;
            let hi = x >> ((16 - rem) as u32);
            let rest = bits - rem;
            let ghost p = self@.pending;
            proof {
                lemma_word_bits_value(self.n, rem as nat);
                assert(p =~= word_bits(self.n).take(rem as int));
                lemma_top_bits(x, rem as nat);
            }
            if self.buffer.len() - self.pos >= 2 {
                let b0 = self.buffer[self.pos];
                let b1 = self.buffer[self.pos + 1];
                proof {
                    bv_le_word(b0, b1);
                }
                let w: u16 = (b0 as u16) | ((b1 as u16) << 8u16);
                let y = w as u32;
                let lo = y >> ((16 - rest) as u32);
                proof {
                    let rs = self@.rest;
                    assert(rs[0] == b0 && rs[1] == b1);
                    assert(stream_bits(rs) == word_bits(w) + stream_bits(rs.skip(2)));
                    assert(b.take(bits as int) =~= p + word_bits(w).take(rest as int));
                    lemma_word_bits_value(w, rest as nat);
                    lemma_top_bits(y, rest as nat);
                    lemma_join(hi, lo, rem as nat, rest as nat);
                    lemma_bits_value_append(p, word_bits(w).take(rest as int));
                }
                ((hi << (rest as u32)) | lo) as u16
            } else {
                proof {
                    assert(stream_bits(self@.rest) =~= Seq::<bool>::empty());
                    assert(b.take(bits as int) =~= p + zero_bits(rest as nat));
                    lemma_bits_value_zeros(rest as nat);
                    lemma_bits_value_append(p, zero_bits(rest as nat));
                    vstd::arithmetic::power2::lemma2_to64();
                    lemma_pow2_le(rem as nat, 16);
                    vstd::arithmetic::mul::lemma_mul_inequality(
                        hi as int + 1,
                        pow2(rem as nat) as int,
                        pow2(rest as nat) as int,
                    );
                    vstd::arithmetic::power2::lemma_pow2_adds(rem as nat, rest as nat);
                    lemma_pow2_le((rem + rest) as nat, 16);
                    lemma_join(hi, 0, rem as nat, rest as nat);
                    assert((hi << (rest as u32)) == (hi << (rest as u32)) | 0u32) by (bit_vector);
                }
                (hi << (rest as u32)) as u16
            }
        }
    }

    /// Peeks up to 32 bits without consuming them; past the end the stream reads as zeros.
    pub fn peek_bits(&self, bits: u8) -> (r: u32)
        requires
            self.wf(),
            bits <= 32,
        ensures
            r as nat == self@.peek(bits as nat),
    {
        if bits <= 16 {
            self.peek_bits_oneword(bits) as u32
        } else {
            let ghost b = self@.bits() + zero_bits(32);
            let w0 = self.peek_bits_oneword(16) as u32;
            let mut advanced = Bitstream {
                buffer: self.buffer,
                pos: self.pos,
                n: self.n,
                remaining: self.remaining,
            };
            let m = bits - 16;
            proof {
                self.lemma_view_wf();
                lemma_read_word_bits(self@, 16);
                assert(b.take(bits as int) =~= b.take(16) + b.skip(16).take(m as int));
                lemma_bits_value_append(b.take(16), b.skip(16).take(m as int));
                lemma_bits_value_bound(b.skip(16).take(m as int));
            }
            let w1 = match advanced.read_bits_oneword(16) {
                Ok(_) => {
                    let v = advanced.peek_bits_oneword(m) as u32;
                    proof {
                        assert(advanced@.bits() + zero_bits(32) =~= b.skip(16));
                    }
                    v
                },
                Err(_) => {
                    proof {
                        assert(b.skip(16).take(m as int) =~= zero_bits(m as nat));
                        lemma_bits_value_zeros(m as nat);
                    }
                    0
                },
            };
            proof {
                lemma_join32(w0, w1, m as nat);
            }
            (w0 << (m as u32)) | w1
        }
    }

    /// Reads a 32-bit little-endian integer: a low word, then a high word.
    pub fn read_u32_le(&mut self) -> (r: Result<u32, DecodeFailed>)
        requires
            old(self).wf(),
        ensures
            final(self).wf(),
            match old(self)@.read_u32_le() {
                Some((v, st)) => r == Ok::<u32, DecodeFailed>(v as u32) && final(self)@ == st,
                None => r == Err::<u32, DecodeFailed>(DecodeFailed::UnexpectedEof),
            },
    {
        let lo = self.read_bits_oneword(16)?;
        let hi = self.read_bits_oneword(16)?;
        let v = (lo as u32) | ((hi as u32) << 16u32);
        proof {
            vstd::arithmetic::power2::lemma2_to64();
            lemma_join32(hi as u32, lo as u32, 16);
            assert(((hi as u32) << 16u32) | (lo as u32) == (lo as u32) | ((hi as u32) << 16u32))
                by (bit_vector);
            assert(v == lo + hi * 0x10000);
        }
        Ok(v)
    }

    /// Reads a 24-bit big-endian integer: 16 high bits, then 8 low bits.
    pub fn read_u24_be(&mut self) -> (r: Result<u32, DecodeFailed>)
        requires
            old(self).wf(),
        ensures
            final(self).wf(),
            match old(self)@.read(24) {
                Some((v, st)) => r == Ok::<u32, DecodeFailed>(v as u32) && final(self)@ == st,
                None => r == Err::<u32, DecodeFailed>(DecodeFailed::UnexpectedEof),
            },
    {
        let hi = self.read_bits(16)?;
        let lo = self.read_bits(8)?;
        proof {
            self.lemma_view_wf();
            vstd::arithmetic::power2::lemma2_to64();
            old(self).lemma_view_wf();
            lemma_read_word_bits(old(self)@, 16);
            let s1 = old(self)@.read_word(16).unwrap().1;
            lemma_bits_value_bound(old(self)@.bits().take(16));
            lemma_read_word_bits(s1, 8);
            lemma_bits_value_bound(s1.bits().take(8));
            lemma_join32(hi, lo, 8);
        }
        Ok(hi << 8u32 | lo)
    }

    /// Drops the rest of the current word. If no bits of it are left, a whole word of
    /// padding is read instead.
    pub fn align(&mut self) -> (r: Result<(), DecodeFailed>)
        requires
            old(self).wf(),
        ensures
            final(self).wf(),
            match old(self)@.align() {
                Some(st) => r.is_ok() && final(self)@ == st,
                None => r == Err::<(), DecodeFailed>(DecodeFailed::UnexpectedEof),
            },
    {
        if self.remaining == 0 {
            self.read_bits(16)?;
        } else {
            self.remaining = 0;
            assert(self@.pending =~= Seq::<bool>::empty());
        }
        Ok(())
    }

    /// Copies the next `output.len()` raw bytes into `output`.
    pub fn read_raw(&mut self, output: &mut [u8]) -> (r: Result<(), DecodeFailed>)
        requires
            old(self).wf(),
        ensures
            final(self).wf(),
            final(output)@.len() == old(output)@.len(),
            old(self)@.rest.len() < old(output)@.len() ==> r == Err::<(), DecodeFailed>(
                DecodeFailed::UnexpectedEof,
            ) && final(self)@ == old(self)@,
            old(self)@.rest.len() >= old(output)@.len() ==> {
                &&& r.is_ok()
                &&& final(output)@ == old(self)@.rest.take(old(output)@.len() as int)
                &&& final(self)@ == (BitState {
                    pending: old(self)@.pending,
                    rest: old(self)@.rest.skip(old(output)@.len() as int),
                })
            },
    {
        let len = output.len();
        if self.buffer.len() - self.pos < len {
            return Err(DecodeFailed::UnexpectedEof);
        }
        let mut i: usize = 0;
        while i < len
            invariant
                self.wf(),
                self == old(self),
                output@.len() == len,
                self.buffer.len() - self.pos >= len,
                i <= len,
                forall|j: int| 0 <= j < i ==> output@[j] == self.buffer@[self.pos + j],
            decreases len - i,
        {
            output[i] = self.buffer[self.pos + i];
            i += 1;
        }
        self.pos = self.pos + len;
        assert(output@ =~= old(self)@.rest.take(len as int));
        assert(self@.rest =~= old(self)@.rest.skip(len as int));
        Ok(())
    }

    /// Number of bytes not yet read.
    pub fn remaining_bytes(&self) -> (r: usize)
        requires
            self.wf(),
        ensures
            r == self@.rest.len(),
    {
        self.buffer.len() - self.pos
    }
}

} // verus!
