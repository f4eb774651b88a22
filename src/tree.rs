//! Canonical Huffman trees: the path lengths that blocks update by deltas, and the flat
//! decoding tables built from them.
use vstd::arithmetic::power2::pow2;
use vstd::prelude::*;

use crate::bitstream::{BitState, Bitstream};
use crate::DecodeFailed;

verus! {

/// The largest of the path lengths, 0 for none.
pub open spec fn max_len(p: Seq<u8>) -> nat
    decreases p.len(),
{
    if p.len() == 0 {
        0
    } else {
        let m = max_len(p.drop_last());
        if p.last() as nat > m {
            p.last() as nat
        } else {
            m
        }
    }
}

/// Every path length is at most 16.
pub open spec fn lengths_ok(p: Seq<u8>) -> bool {
    forall|i: int| 0 <= i < p.len() ==> p[i] <= 16
}

/// The decoding table of the canonical code with path lengths `p`, where `big` is the
/// largest length, from the state that has reached length `bit` and symbol `c`: lengths are
/// taken from short to long, and within a length symbols in increasing order; each symbol of
/// length `bit` takes `2^(big - bit)` consecutive entries.
pub open spec fn fill(p: Seq<u8>, big: nat, bit: nat, c: nat) -> Seq<u16>
    decreases big + 1 - bit, p.len() - c,
{
    if bit > big || bit == 0 {
        Seq::empty()
    } else if c >= p.len() {
        fill(p, big, bit + 1, 0)
    } else {
        let run = if p[c as int] as nat == bit {
            Seq::new(pow2((big - bit) as nat), |k: int| c as u16)
        } else {
            Seq::empty()
        };
        run + fill(p, big, bit, c + 1)
    }
}

/// The whole decoding table for the path lengths `p`. It is a valid canonical code when its
/// length is exactly `2^max_len(p)`.
pub open spec fn table(p: Seq<u8>) -> Seq<u16> {
    fill(p, max_len(p), 1, 0)
}

/// The path lengths `p` form a complete prefix code.
pub open spec fn is_complete(p: Seq<u8>) -> bool {
    max_len(p) > 0 && table(p).len() == pow2(max_len(p))
}

/// Reading `count` path lengths of `width` bits each.
pub open spec fn read_lengths(st: BitState, count: nat, width: nat) -> Option<(Seq<u8>, BitState)>
    decreases count,
{
    if count == 0 {
        Some((Seq::empty(), st))
    } else {
        match read_lengths(st, (count - 1) as nat, width) {
            Some((ls, s1)) => match s1.read(width) {
                Some((v, s2)) => Some((ls.push(v as u8), s2)),
                None => None,
            },
            None => None,
        }
    }
}

/// A path length after the delta code `code`: `(old - code) mod 17`.
pub open spec fn delta(old: u8, code: nat) -> u8 {
    ((17 + old - code) % 17) as u8
}

/// `p` with the `n` lengths from index `i` set to `v`.
pub open spec fn set_run(p: Seq<u8>, i: int, n: int, v: u8) -> Seq<u8> {
    Seq::new(p.len(), |k: int| if i <= k < i + n { v } else { p[k] })
}

/// One delta code at index `i` of the path lengths `p`, with the pretree of path lengths
/// `pre`: the new lengths, the reader after the code, and the index after it. Codes 0 to 16
/// change one length by a delta; 17 and 18 set a run of 4 + (4 bits) or 20 + (5 bits)
/// lengths to 0; 19 sets a run of 4 + (1 bit) lengths to the delta of a further code. A run
/// may not pass the last symbol.
pub open spec fn delta_step(p: Seq<u8>, pre: Seq<u8>, st: BitState, i: int) -> Result<
    (Seq<u8>, BitState, int),
    DecodeFailed,
> {
    match decode_spec(pre, st) {
        None => Err(DecodeFailed::UnexpectedEof),
        Some((code, s1)) => if code <= 16 {
            Ok((p.update(i, delta(p[i], code as nat)), s1, i + 1))
        } else if code == 17 || code == 18 {
            let width: nat = if code == 17 {
                4
            } else {
                5
            };
            let base: nat = if code == 17 {
                4
            } else {
                20
            };
            match s1.read(width) {
                None => Err(DecodeFailed::UnexpectedEof),
                Some((z, s2)) => if i + z + base > p.len() {
                    Err(DecodeFailed::InvalidPretreeRle)
                } else {
                    Ok((set_run(p, i, (z + base) as int, 0), s2, i + z + base))
                },
            }
        } else if code == 19 {
            match s1.read(1) {
                None => Err(DecodeFailed::UnexpectedEof),
                Some((same, s2)) => match decode_spec(pre, s2) {
                    None => Err(DecodeFailed::UnexpectedEof),
                    Some((c2, s3)) => if c2 > 16 {
                        Err(DecodeFailed::InvalidPretreeElement(c2))
                    } else if i + same + 4 > p.len() {
                        Err(DecodeFailed::InvalidPretreeRle)
                    } else {
                        Ok(
                            (
                                set_run(p, i, (same + 4) as int, delta(p[i], c2 as nat)),
                                s3,
                                i + same + 4,
                            ),
                        )
                    },
                },
            }
        } else {
            Err(DecodeFailed::InvalidPretreeElement(code))
        },
    }
}

/// Applying delta codes from index `i` until `end` is reached or passed. Each code moves
/// the index on by at least one.
pub open spec fn apply_deltas(p: Seq<u8>, pre: Seq<u8>, st: BitState, i: int, end: int) -> Result<
    (Seq<u8>, BitState),
    DecodeFailed,
>
    decreases (if i < end {
        end - i
    } else {
        0
    }),
{
    if i >= end {
        Ok((p, st))
    } else {
        match delta_step(p, pre, st, i) {
            Err(e) => Err(e),
            Ok((p2, s2, i2)) => if i2 > i {
                apply_deltas(p2, pre, s2, i2, end)
            } else {
                Ok((p2, s2))
            },
        }
    }
}

/// Updating the path lengths `p` in `[start, end)`: a pretree of 20 lengths of 4 bits
/// each, then the delta codes it encodes.
pub open spec fn update_range_spec(p: Seq<u8>, st: BitState, start: int, end: int) -> Result<
    (Seq<u8>, BitState),
    DecodeFailed,
> {
    match read_lengths(st, 20, 4) {
        None => Err(DecodeFailed::UnexpectedEof),
        Some((pre, s1)) => if max_len(pre) == 0 {
            Err(DecodeFailed::EmptyTree)
        } else if !is_complete(pre) {
            Err(DecodeFailed::InvalidPathLengths)
        } else {
            apply_deltas(p, pre, s1, start, end)
        },
    }
}

/// The canonical tree cannot decode by itself: it holds the path lengths that later blocks
/// update by deltas, and builds the trees that decode.
#[derive(Debug)]
pub struct CanonicalTree {
    /// One length in `[0, 16]` per symbol; 0 means the symbol is absent.
    pub path_lengths: Vec<u8>,
}

/// A decoding tree: a flat table indexed by the next `largest_length` bits of the stream.
#[derive(Debug)]
pub struct Tree {
    pub path_lengths: Vec<u8>,
    pub largest_length: u8,
    pub huffman_tree: Vec<u16>,
}

impl CanonicalTree {
    /// Between 1 and 65536 symbols, each of path length at most 16.
    pub open spec fn wf(&self) -> bool {
        &&& 0 < self.path_lengths.len() <= 0x10000
        &&& lengths_ok(self.path_lengths@)
    }

    /// A tree of `count` absent symbols.
    pub fn new(count: usize) -> (r: Self)
        requires
            0 < count <= 0x10000,
        ensures
            r.wf(),
            r.path_lengths@ == Seq::new(count as nat, |i: int| 0u8),
    {
        let r = CanonicalTree { path_lengths: vec![0u8; count] };
        assert(r.path_lengths@ =~= Seq::new(count as nat, |i: int| 0u8));
        r
    }

    /// Reads a pretree and with it the new path lengths in `range`, as deltas against the
    /// current ones.
    pub fn update_range_with_pretree(
        &mut self,
        bitstream: &mut Bitstream,
        range: core::ops::Range<usize>,
    ) -> (r: Result<(), DecodeFailed>)
        requires
            old(self).wf(),
            old(bitstream).wf(),
            range.end <= old(self).path_lengths.len(),
        ensures
            final(self).wf(),
            final(bitstream).wf(),
            final(self).path_lengths.len() == old(self).path_lengths.len(),
            match update_range_spec(
                old(self).path_lengths@,
                old(bitstream)@,
                range.start as int,
                range.end as int,
            ) {
                Ok((p, st)) => r.is_ok() && final(self).path_lengths@ == p && final(bitstream)@
                    == st,
                Err(e) => r == Err::<(), DecodeFailed>(e),
            },
    {
        let pretree_lengths = read_path_lengths(bitstream, 20, 4)?;
        let pretree = Tree::from_path_lengths(pretree_lengths)?;
        let ghost pre = pretree.path_lengths@;
        let ghost p0 = self.path_lengths@;
        let ghost s0 = bitstream@;
        let len = self.path_lengths.len();
        let end = range.end;
        let mut i = range.start;
        if i > end {
            i = end;
        }
        while i < end
            invariant
                self.wf(),
                bitstream.wf(),
                pretree.wf(),
                pretree.path_lengths@ == pre,
                self.path_lengths.len() == len,
                len == old(self).path_lengths.len(),
                end <= len,
                i <= len,
                update_range_spec(
                    old(self).path_lengths@,
                    old(bitstream)@,
                    range.start as int,
                    range.end as int,
                ) == apply_deltas(p0, pre, s0, range.start as int, end as int),
                apply_deltas(p0, pre, s0, range.start as int, end as int) == apply_deltas(
                    self.path_lengths@,
                    pre,
                    bitstream@,
                    i as int,
                    end as int,
                ),
            decreases len - i,
        {
            let ghost pi = self.path_lengths@;
            let ghost si = bitstream@;
            let ghost ii = i as int;
            i = self.apply_delta_code(&pretree, bitstream, i)?;
            assert(apply_deltas(pi, pre, si, ii, end as int) == apply_deltas(
                self.path_lengths@,
                pre,
                bitstream@,
                i as int,
                end as int,
            ));
        }
        Ok(())
    }

    /// Applies one delta code at index `i`, and returns the index after it.
    fn apply_delta_code(&mut self, pretree: &Tree, bitstream: &mut Bitstream, i: usize) -> (r:
        Result<usize, DecodeFailed>)
        requires
            old(self).wf(),
            old(bitstream).wf(),
            pretree.wf(),
            i < old(self).path_lengths.len(),
        ensures
            final(self).wf(),
            final(bitstream).wf(),
            final(self).path_lengths.len() == old(self).path_lengths.len(),
            match r {
                Ok(i2) => i < i2 <= old(self).path_lengths.len() && delta_step(
                    old(self).path_lengths@,
                    pretree.path_lengths@,
                    old(bitstream)@,
                    i as int,
                ) == Ok::<(Seq<u8>, BitState, int), DecodeFailed>(
                    (final(self).path_lengths@, final(bitstream)@, i2 as int),
                ),
                Err(e) => delta_step(
                    old(self).path_lengths@,
                    pretree.path_lengths@,
                    old(bitstream)@,
                    i as int,
                ) == Err::<(Seq<u8>, BitState, int), DecodeFailed>(e),
            },
    {
        let len = self.path_lengths.len();
        let code = pretree.decode_element(bitstream)?;
        if code <= 16 {
            let v = (17 + self.path_lengths[i] - code as u8) % 17;
            self.path_lengths.set(i, v);
            Ok(i + 1)
        } else if code == 17 || code == 18 {
            let width: u8 = if code == 17 {
                4
            } else {
                5
            };
            let base: usize = if code == 17 {
                4
            } else {
                20
            };
            let ghost b1 = bitstream@;
            proof {
                bitstream.lemma_view_wf();
            }
            let z = bitstream.read_bits(width)?;
            proof {
                b1.lemma_read_bound(width as nat);
                crate::bitstream::lemma_pow2_le(width as nat, 16);
                vstd::arithmetic::power2::lemma2_to64();
            }
            if base > len - i || z as usize > len - i - base {
                return Err(DecodeFailed::InvalidPretreeRle);
            }
            let n = z as usize + base;
            self.set_run(i, n, 0);
            Ok(i + n)
        } else if code == 19 {
            let ghost b1 = bitstream@;
            proof {
                bitstream.lemma_view_wf();
            }
            let same = bitstream.read_bits(1)?;
            proof {
                b1.lemma_read_bound(1);
                vstd::arithmetic::power2::lemma2_to64();
            }
            let code2 = pretree.decode_element(bitstream)?;
            if code2 > 16 {
                return Err(DecodeFailed::InvalidPretreeElement(code2));
            }
            if same as usize + 4 > len - i {
                return Err(DecodeFailed::InvalidPretreeRle);
            }
            let v = (17 + self.path_lengths[i] - code2 as u8) % 17;
            let n = same as usize + 4;
            self.set_run(i, n, v);
            Ok(i + n)
        } else {
            Err(DecodeFailed::InvalidPretreeElement(code))
        }
    }

    /// Sets the `n` path lengths from index `i` to `v`.
    fn set_run(&mut self, i: usize, n: usize, v: u8)
        requires
            old(self).wf(),
            i + n <= old(self).path_lengths.len(),
            v <= 16,
        ensures
            final(self).wf(),
            final(self).path_lengths@ == set_run(old(self).path_lengths@, i as int, n as int, v),
    {
        let ghost p0 = self.path_lengths@;
        let mut k: usize = i;
        while k < i + n
            invariant
                i <= k <= i + n <= p0.len(),
                self.path_lengths@.len() == p0.len(),
                v <= 16,
                forall|j: int|
                    0 <= j < p0.len() ==> self.path_lengths@[j] == if i <= j < k {
                        v
                    } else {
                        p0[j]
                    },
                old(self).wf(),
                p0 == old(self).path_lengths@,
            decreases i + n - k,
        {
            self.path_lengths.set(k, v);
            k += 1;
        }
        assert(self.path_lengths@ =~= set_run(p0, i as int, n as int, v));
    }

    /// Builds the decoding tree of the current path lengths; `None` when all of them are 0.
    pub fn create_instance_allow_empty(&self) -> (r: Result<Option<Tree>, DecodeFailed>)
        requires
            self.wf(),
        ensures
            max_len(self.path_lengths@) == 0 ==> r == Ok::<Option<Tree>, DecodeFailed>(None),
            max_len(self.path_lengths@) > 0 && !is_complete(self.path_lengths@) ==> r == Err::<
                Option<Tree>,
                DecodeFailed,
            >(DecodeFailed::InvalidPathLengths),
            is_complete(self.path_lengths@) ==> (r matches Ok(Some(t)) && t.wf()
                && t.path_lengths@ == self.path_lengths@),
    {
        build_table(&self.path_lengths)
    }

    /// Builds the decoding tree of the current path lengths, which must not all be 0.
    pub fn create_instance(&self) -> (r: Result<Tree, DecodeFailed>)
        requires
            self.wf(),
        ensures
            max_len(self.path_lengths@) == 0 ==> r == Err::<Tree, DecodeFailed>(
                DecodeFailed::EmptyTree,
            ),
            max_len(self.path_lengths@) > 0 && !is_complete(self.path_lengths@) ==> r == Err::<
                Tree,
                DecodeFailed,
            >(DecodeFailed::InvalidPathLengths),
            is_complete(self.path_lengths@) ==> (r matches Ok(t) && t.wf() && t.path_lengths@
                == self.path_lengths@),
    {
        match self.create_instance_allow_empty() {
            Ok(Some(t)) => Ok(t),
            Ok(None) => Err(DecodeFailed::EmptyTree),
            Err(e) => Err(e),
        }
    }
}

/// Reads `count` path lengths of `width` bits each.
pub fn read_path_lengths(bitstream: &mut Bitstream, count: usize, width: u8) -> (r: Result<
    Vec<u8>,
    DecodeFailed,
>)
    requires
        old(bitstream).wf(),
        width <= 4,
    ensures
        final(bitstream).wf(),
        match read_lengths(old(bitstream)@, count as nat, width as nat) {
            Some((ls, st)) => r matches Ok(v) && v@ == ls && final(bitstream)@ == st,
            None => r == Err::<Vec<u8>, DecodeFailed>(DecodeFailed::UnexpectedEof),
        },
        r matches Ok(v) ==> v@.len() == count && lengths_ok(v@),
{
    let ghost s0 = bitstream@;
    let mut lengths: Vec<u8> = Vec::new();
    let mut k: usize = 0;
    while k < count
        invariant
            bitstream.wf(),
            width <= 4,
            k <= count,
            s0 == old(bitstream)@,
            read_lengths(s0, k as nat, width as nat) == Some((lengths@, bitstream@)),
            lengths@.len() == k,
            lengths_ok(lengths@),
        decreases count - k,
    {
        let ghost before = bitstream@;
        proof {
            bitstream.lemma_view_wf();
            before.lemma_read_bound(width as nat);
            crate::bitstream::lemma_pow2_le(width as nat, 4);
            vstd::arithmetic::power2::lemma2_to64();
        }
        match bitstream.read_bits(width) {
            Ok(v) => {
                lengths.push(v as u8);
                k += 1;
            },
            Err(_) => {
                proof {
                    assert(read_lengths(s0, (k + 1) as nat, width as nat) is None);
                    lemma_read_lengths_none(s0, (k + 1) as nat, count as nat, width as nat);
                }
                return Err(DecodeFailed::UnexpectedEof);
            },
        }
    }
    Ok(lengths)
}

/// Once reading lengths fails, reading more fails too.
proof fn lemma_read_lengths_none(st: BitState, k: nat, count: nat, width: nat)
    requires
        k <= count,
        read_lengths(st, k, width) is None,
    ensures
        read_lengths(st, count, width) is None,
    decreases count - k,
{
    if k < count {
        lemma_read_lengths_none(st, k + 1, count, width);
    }
}

/// Computes the largest of the path lengths.
fn largest_length(p: &Vec<u8>) -> (r: u8)
    ensures
        r as nat == max_len(p@),
{
    let mut largest: u8 = 0;
    let mut i: usize = 0;
    while i < p.len()
        invariant
            i <= p.len(),
            largest as nat == max_len(p@.take(i as int)),
        decreases p.len() - i,
    {
        assert(p@.take(i + 1).drop_last() =~= p@.take(i as int));
        if p[i] > largest {
            largest = p[i];
        }
        i += 1;
    }
    assert(p@.take(p.len() as int) =~= p@);
    largest
}

/// One step of building a decoding table.
proof fn lemma_fill_step(p: Seq<u8>, big: nat, bit: nat, c: nat)
    requires
        1 <= bit <= big,
    ensures
        c < p.len() ==> fill(p, big, bit, c) == (if p[c as int] as nat == bit {
            Seq::new(pow2((big - bit) as nat), |k: int| c as u16)
        } else {
            Seq::empty()
        }) + fill(p, big, bit, c + 1),
        c >= p.len() ==> fill(p, big, bit, c) == fill(p, big, bit + 1, 0),
{
}

/// Builds the decoding table of the path lengths `p`.
fn build_table(p: &Vec<u8>) -> (r: Result<Option<Tree>, DecodeFailed>)
    requires
        0 < p.len() <= 0x10000,
        lengths_ok(p@),
    ensures
        max_len(p@) == 0 ==> r == Ok::<Option<Tree>, DecodeFailed>(None),
        max_len(p@) > 0 && !is_complete(p@) ==> r == Err::<Option<Tree>, DecodeFailed>(
            DecodeFailed::InvalidPathLengths,
        ),
        is_complete(p@) ==> (r matches Ok(Some(t)) && t.wf() && t.path_lengths@ == p@),
{
    let largest = largest_length(p);
    if largest == 0 {
        return Ok(None);
    }
    let ghost big = largest as nat;
    proof {
        lemma_max_len_bound(p@);
        vstd::arithmetic::power2::lemma2_to64();
        crate::bitstream::lemma_pow2_le(big, 16);
        vstd::bits::lemma_u32_shl_is_mul(1, largest as u32);
    }
    let size = (1u32 << (largest as u32)) as usize;
    let mut huffman_tree: Vec<u16> = vec![0u16; size];
    let mut pos: usize = 0;
    let mut bit: u8 = 1;
    proof {
        assert(huffman_tree@.take(0) + fill(p@, big, 1, 0) =~= table(p@));
    }
    while bit <= largest
        invariant
            largest as nat == big == max_len(p@),
            1 <= big <= 16,
            size == pow2(big),
            huffman_tree@.len() == size,
            1 <= bit <= big + 1,
            pos <= size,
            0 < p.len() <= 0x10000,
            huffman_tree@.take(pos as int) + fill(p@, big, bit as nat, 0) == table(p@),
        decreases big + 1 - bit,
    {
        proof {
            crate::bitstream::lemma_pow2_le((big - bit) as nat, 16);
            vstd::arithmetic::power2::lemma2_to64();
            vstd::bits::lemma_u32_shl_is_mul(1, (largest - bit) as u32);
        }
        let amount = (1u32 << ((largest - bit) as u32)) as usize;
        let mut code: usize = 0;
        while code < p.len()
            invariant
                largest as nat == big == max_len(p@),
                1 <= big <= 16,
                size == pow2(big),
                huffman_tree@.len() == size,
                1 <= bit <= big,
                amount == pow2((big - bit) as nat),
                pos <= size,
                code <= p.len() <= 0x10000,
                huffman_tree@.take(pos as int) + fill(p@, big, bit as nat, code as nat) == table(
                    p@,
                ),
            decreases p.len() - code,
        {
            proof {
                lemma_fill_step(p@, big, bit as nat, code as nat);
            }
            if p[code] == bit {
                if amount > size - pos {
                    return Err(DecodeFailed::InvalidPathLengths);
                }
                let ghost before = huffman_tree@.take(pos as int);
                let mut k: usize = 0;
                while k < amount
                    invariant
                        huffman_tree@.len() == size,
                        pos + amount <= size,
                        k <= amount,
                        code < 0x10000,
                        before.len() == pos,
                        huffman_tree@.take((pos + k) as int) == before + Seq::new(
                            k as nat,
                            |j: int| code as u16,
                        ),
                    decreases amount - k,
                {
                    let ghost prev = huffman_tree@;
                    huffman_tree.set(pos + k, code as u16);
                    assert(forall|j: int| 0 <= j < pos + k ==> huffman_tree@[j] == prev[j]);
                    assert(forall|j: int|
                        0 <= j < pos + k ==> prev[j] == prev.take((pos + k) as int)[j]);
                    k += 1;
                    assert(huffman_tree@.take((pos + k) as int) =~= before + Seq::new(
                        k as nat,
                        |j: int| code as u16,
                    ));
                }
                pos = pos + amount;
            }
            code += 1;
        }
        proof {
            lemma_fill_step(p@, big, bit as nat, code as nat);
        }
        bit += 1;
    }
    assert(fill(p@, big, bit as nat, 0) =~= Seq::<u16>::empty());
    if pos != size {
        return Err(DecodeFailed::InvalidPathLengths);
    }
    assert(huffman_tree@.take(pos as int) =~= huffman_tree@);
    Ok(Some(Tree { path_lengths: p.clone(), largest_length: largest, huffman_tree }))
}

/// The largest path length is at most 16.
proof fn lemma_max_len_bound(p: Seq<u8>)
    requires
        lengths_ok(p),
    ensures
        max_len(p) <= 16,
    decreases p.len(),
{
    if p.len() > 0 {
        assert(lengths_ok(p.drop_last()));
        lemma_max_len_bound(p.drop_last());
    }
}

/// Decoding one symbol with the code of path lengths `p`: look up the table at the next
/// `max_len(p)` bits (zeros past the end of the stream), then read as many bits as that
/// symbol's path length. `None` when the stream runs out first.
pub open spec fn decode_spec(p: Seq<u8>, st: BitState) -> Option<(u16, BitState)> {
    let s = table(p)[st.peek(max_len(p)) as int];
    match st.read(p[s as int] as nat) {
        Some((_, s2)) => Some((s, s2)),
        None => None,
    }
}

impl Tree {
    /// The table is the one of the path lengths, which form a complete code.
    pub open spec fn wf(&self) -> bool {
        &&& 0 < self.path_lengths.len() <= 0x10000
        &&& lengths_ok(self.path_lengths@)
        &&& self.largest_length as nat == max_len(self.path_lengths@)
        &&& is_complete(self.path_lengths@)
        &&& self.huffman_tree@ == table(self.path_lengths@)
    }

    /// Builds a decoding tree directly from known path lengths.
    pub fn from_path_lengths(path_lengths: Vec<u8>) -> (r: Result<Self, DecodeFailed>)
        requires
            0 < path_lengths.len() <= 0x10000,
            lengths_ok(path_lengths@),
        ensures
            max_len(path_lengths@) == 0 ==> r == Err::<Tree, DecodeFailed>(
                DecodeFailed::EmptyTree,
            ),
            max_len(path_lengths@) > 0 && !is_complete(path_lengths@) ==> r == Err::<
                Tree,
                DecodeFailed,
            >(DecodeFailed::InvalidPathLengths),
            is_complete(path_lengths@) ==> (r matches Ok(t) && t.wf() && t.path_lengths@
                == path_lengths@),
    {
        CanonicalTree { path_lengths }.create_instance()
    }

    /// Decodes one symbol.
    pub fn decode_element(&self, bitstream: &mut Bitstream) -> (r: Result<u16, DecodeFailed>)
        requires
            self.wf(),
            old(bitstream).wf(),
        ensures
            final(bitstream).wf(),
            match decode_spec(self.path_lengths@, old(bitstream)@) {
                Some((s, st)) => r == Ok::<u16, DecodeFailed>(s) && final(bitstream)@ == st,
                None => r == Err::<u16, DecodeFailed>(DecodeFailed::UnexpectedEof),
            },
    {
        let ghost p = self.path_lengths@;
        let ghost st = bitstream@;
        proof {
            lemma_max_len_bound(p);
        }
        let idx = bitstream.peek_bits(self.largest_length);
        proof {
            lemma_max_len_bound(p);
            let padded = st.bits() + crate::bitstream::zero_bits(32);
            crate::bitstream::lemma_bits_value_bound(padded.take(max_len(p) as int));
            lemma_fill_entries(p, max_len(p), 1, 0);
        }
        let code = self.huffman_tree[idx as usize];
        bitstream.read_bits(self.path_lengths[code as usize])?;
        Ok(code)
    }
}

/// Indices below a multiple `x` of `m` fall in an earlier block of `m`; indices of the block
/// that starts at `x` share its quotient.
proof fn lemma_block_quotients(x: int, m: int, y: int)
    requires
        0 < m,
        0 <= x,
        x % m == 0,
        0 <= y,
    ensures
        y < x ==> y / m < x / m,
        x <= y < x + m ==> y / m == x / m,
        x + m <= y ==> x / m < y / m,
{
    let q = x / m;
    vstd::arithmetic::div_mod::lemma_fundamental_div_mod(x, m);
    assert(x == m * q);
    assert(x - 1 == (q - 1) * m + (m - 1)) by (nonlinear_arith)
        requires
            x == m * q,
    ;
    assert(x + m == (q + 1) * m + 0) by (nonlinear_arith)
        requires
            x == m * q,
    ;
    assert(y == q * m + (y - x)) by (nonlinear_arith)
        requires
            x == m * q,
    ;
    if y < x {
        vstd::arithmetic::div_mod::lemma_div_is_ordered(y, x - 1, m);
        vstd::arithmetic::div_mod::lemma_fundamental_div_mod_converse(x - 1, m, q - 1, m - 1);
    }
    if x <= y < x + m {
        vstd::arithmetic::div_mod::lemma_fundamental_div_mod_converse(y, m, q, y - x);
    }
    if x + m <= y {
        vstd::arithmetic::div_mod::lemma_div_is_ordered(x + m, y, m);
        vstd::arithmetic::div_mod::lemma_fundamental_div_mod_converse(x + m, m, q + 1, 0);
    }
}

/// A multiple of `2^b` is a multiple of `2^a` for `a <= b`.
proof fn lemma_pow2_multiple(x: int, a: nat, b: nat)
    requires
        a <= b,
        0 <= x,
        x % (pow2(b) as int) == 0,
    ensures
        x % (pow2(a) as int) == 0,
{
    vstd::arithmetic::power2::lemma_pow2_adds(a, (b - a) as nat);
    vstd::arithmetic::power2::lemma_pow2_pos(a);
    vstd::arithmetic::power2::lemma_pow2_pos((b - a) as nat);
    vstd::arithmetic::power2::lemma_pow2_pos(b);
    let pa = pow2(a) as int;
    let pc = pow2((b - a) as nat) as int;
    vstd::arithmetic::div_mod::lemma_fundamental_div_mod(x, pa * pc);
    let q = x / (pa * pc);
    assert(x == pa * (q * pc)) by (nonlinear_arith)
        requires
            x == (pa * pc) * q + 0,
    ;
    vstd::arithmetic::div_mod::lemma_mod_multiples_basic(q * pc, pa);
    assert((q * pc) * pa == pa * (q * pc)) by (nonlinear_arith);
}

/// The entries of `fill(p, big, bit, c)`, placed at index `o` of a table, form aligned
/// blocks: an entry `s` has length `bit <= p[s] <= big`, and every entry whose index agrees
/// with it on the first `p[s]` of `big` bits holds `s` too.
proof fn lemma_fill_blocks(p: Seq<u8>, big: nat, bit: nat, c: nat, o: int, k: int, j: int)
    requires
        p.len() <= 0x10000,
        lengths_ok(p),
        1 <= bit,
        big <= 16,
        0 <= o,
        bit <= big ==> o % (pow2((big - bit) as nat) as int) == 0,
        0 <= k < fill(p, big, bit, c).len(),
    ensures
        ({
            let f = fill(p, big, bit, c);
            let s = f[k] as int;
            let m = pow2((big - p[s]) as nat) as int;
            &&& 0 <= s < p.len()
            &&& bit <= p[s] <= big
            &&& (0 <= j < f.len() && (o + j) / m == (o + k) / m ==> f[j] == f[k])
        }),
    decreases big + 1 - bit, p.len() - c,
{
    lemma_fill_entries(p, big, bit, c);
    if bit > big {
    } else if c >= p.len() {
        assert(fill(p, big, bit, c) == fill(p, big, bit + 1, 0));
        if bit + 1 <= big {
            lemma_pow2_multiple(o, (big - bit - 1) as nat, (big - bit) as nat);
        }
        lemma_fill_blocks(p, big, bit + 1, 0, o, k, j);
    } else {
        let mc = pow2((big - bit) as nat) as int;
        vstd::arithmetic::power2::lemma_pow2_pos((big - bit) as nat);
        let run = if p[c as int] as nat == bit {
            Seq::new(pow2((big - bit) as nat), |t: int| c as u16)
        } else {
            Seq::empty()
        };
        let rest = fill(p, big, bit, c + 1);
        let f = fill(p, big, bit, c);
        assert(f == run + rest);
        let rl = run.len() as int;
        let o2 = o + rl;
        assert(o2 % mc == 0) by {
            if rl > 0 {
                vstd::arithmetic::div_mod::lemma_mod_adds(o, mc, mc);
                vstd::arithmetic::div_mod::lemma_mod_self_0(mc);
            }
        }
        if k < rl {
            assert(f[k] == c as u16);
            assert(p[c as int] == bit);
            let s = c as int;
            lemma_block_quotients(o, mc, o + k);
            if 0 <= j < f.len() && (o + j) / mc == (o + k) / mc {
                lemma_block_quotients(o, mc, o + j);
                assert(f[j] == c as u16);
            }
        } else {
            lemma_fill_blocks(p, big, bit, c + 1, o2, k - rl, j - rl);
            assert(f[k] == rest[k - rl]);
            let s = f[k] as int;
            let m = pow2((big - p[s]) as nat) as int;
            vstd::arithmetic::power2::lemma_pow2_pos((big - p[s]) as nat);
            if 0 <= j < f.len() && (o + j) / m == (o + k) / m {
                if j < rl {
                    lemma_pow2_multiple(o2, (big - p[s]) as nat, (big - bit) as nat);
                    lemma_block_quotients(o2, m, o + j);
                    lemma_block_quotients(o2, m, o + k);
                    vstd::arithmetic::div_mod::lemma_div_is_ordered(o2, o + k, m);
                } else {
                    assert(f[j] == rest[j - rl]);
                    assert(o2 + (j - rl) == o + j);
                    assert(o2 + (k - rl) == o + k);
                }
            }
        }
    }
}

/// The decoding table of a complete code: it has `2^max_len(p)` entries, each a symbol
/// whose path length is between 1 and `max_len(p)`, and every index that starts with the
/// same `p[s]` bits as an index of symbol `s` also holds `s`. So the symbol's code is the
/// prefix of the index, and one lookup of `max_len(p)` bits decodes it.
pub proof fn lemma_table_prefix(p: Seq<u8>, i: int, j: int)
    requires
        p.len() <= 0x10000,
        lengths_ok(p),
        is_complete(p),
        0 <= i < pow2(max_len(p)),
        0 <= j < pow2(max_len(p)),
        j / (pow2((max_len(p) - p[table(p)[i] as int]) as nat) as int) == i / (pow2(
            (max_len(p) - p[table(p)[i] as int]) as nat,
        ) as int),
    ensures
        table(p).len() == pow2(max_len(p)),
        1 <= p[table(p)[i] as int] <= max_len(p),
        table(p)[j] == table(p)[i],
{
    lemma_max_len_bound(p);
    vstd::arithmetic::power2::lemma_pow2_pos(max_len(p));
    assert(0int % (pow2((max_len(p) - 1) as nat) as int) == 0) by {
        vstd::arithmetic::power2::lemma_pow2_pos((max_len(p) - 1) as nat);
        vstd::arithmetic::div_mod::lemma_small_mod(0, pow2((max_len(p) - 1) as nat));
    }
    lemma_fill_blocks(p, max_len(p), 1, 0, 0, i, j);
}

/// A decoded symbol is one of the tree's symbols.
pub proof fn lemma_decode_symbol_bound(t: &Tree, st: BitState)
    requires
        t.wf(),
    ensures
        decode_spec(t.path_lengths@, st) matches Some((s, _)) ==> s < t.path_lengths.len(),
{
    let p = t.path_lengths@;
    lemma_max_len_bound(p);
    let padded = st.bits() + crate::bitstream::zero_bits(32);
    crate::bitstream::lemma_bits_value_bound(padded.take(max_len(p) as int));
    lemma_fill_entries(p, max_len(p), 1, 0);
}

/// Every entry of a decoding table is a symbol of the code.
proof fn lemma_fill_entries(p: Seq<u8>, big: nat, bit: nat, c: nat)
    requires
        p.len() <= 0x10000,
    ensures
        forall|k: int| 0 <= k < fill(p, big, bit, c).len() ==> fill(p, big, bit, c)[k] < p.len(),
    decreases big + 1 - bit, p.len() - c,
{
    if bit > big || bit == 0 {
    } else if c >= p.len() {
        lemma_fill_entries(p, big, bit + 1, 0);
        assert(fill(p, big, bit, c) == fill(p, big, bit + 1, 0));
    } else {
        lemma_fill_entries(p, big, bit, c + 1);
        let f = fill(p, big, bit, c);
        let run = if p[c as int] as nat == bit {
            Seq::new(pow2((big - bit) as nat), |k: int| c as u16)
        } else {
            Seq::empty()
        };
        let tail = fill(p, big, bit, c + 1);
        assert(f == run + tail);
        assert forall|k: int| 0 <= k < f.len() implies f[k] < p.len() by {
            if k < run.len() {
                assert(f[k] == c as u16);
            } else {
                assert(f[k] == tail[k - run.len()]);
            }
        }
    }
}

} // verus!
