use lzxd::block::{base_position_of, decode_element, footer_bits_of, Decoded};
use lzxd::{Bitstream, CanonicalTree, DecodeFailed, DecompressError, Lzxd, Tree, WindowSize};

/// Packs `(value, width)` fields, most significant bit first, into little-endian 16-bit
/// words, padding the last word with zeros.
fn pack(fields: &[(u32, u8)]) -> Vec<u8> {
    let mut bits: Vec<bool> = Vec::new();
    for &(value, width) in fields {
        for k in (0..width).rev() {
            bits.push((value >> k) & 1 == 1);
        }
    }
    while bits.len() % 16 != 0 {
        bits.push(false);
    }
    let mut bytes = Vec::new();
    for word in bits.chunks(16) {
        let mut w: u16 = 0;
        for &b in word {
            w = (w << 1) | b as u16;
        }
        bytes.extend_from_slice(&w.to_le_bytes());
    }
    bytes
}

#[test]
fn base_positions_follow_footer_bits() {
    let mut expected: u32 = 0;
    for ps in 0..290u32 {
        assert_eq!(base_position_of(ps), expected, "ps={ps}");
        let fb = footer_bits_of(ps);
        let formula = if ps < 4 {
            0
        } else if ps < 36 {
            (ps - 2) / 2
        } else {
            17
        };
        assert_eq!(fb as u32, formula);
        expected += 1 << fb;
    }
    assert_eq!(base_position_of(36), 262144);
    assert_eq!(base_position_of(289), 33423360);
}

#[test]
fn split_reads_equal_one_read() {
    let bytes = [0x5b, 0xda, 0x3f, 0xf8, 0x12, 0x34, 0x56, 0x78];
    for n in 0..=32u8 {
        for m in 0..=(32 - n) {
            let mut one = Bitstream::new(&bytes);
            let mut two = Bitstream::new(&bytes);
            let whole = one.read_bits(n + m).unwrap() as u64;
            let hi = two.read_bits(n).unwrap() as u64;
            let lo = two.read_bits(m).unwrap() as u64;
            assert_eq!(whole, (hi << m) | lo, "n={n}, m={m}");
        }
    }
}

#[test]
fn peek_past_end_reads_zeros() {
    let bytes = [0xff, 0xff];
    let mut bitstream = Bitstream::new(&bytes);
    bitstream.read_bits(12).unwrap();
    assert_eq!(bitstream.peek_bits(8), 0b1111_0000);
    assert_eq!(bitstream.peek_bits(20), 0b1111_0000_0000_0000_0000);
    assert_eq!(bitstream.read_bits(8), Err(DecodeFailed::UnexpectedEof));
}

#[test]
fn read_byte_and_raw() {
    let bytes = [1, 2, 3, 4, 5];
    let mut bitstream = Bitstream::new(&bytes);
    assert_eq!(bitstream.read_byte(), Some(1));
    let mut out = [0u8; 3];
    bitstream.read_raw(&mut out).unwrap();
    assert_eq!(out, [2, 3, 4]);
    assert_eq!(bitstream.remaining_bytes(), 1);
    let mut too_long = [0u8; 2];
    assert_eq!(bitstream.read_raw(&mut too_long), Err(DecodeFailed::UnexpectedEof));
    assert_eq!(bitstream.read_byte(), Some(5));
    assert_eq!(bitstream.read_byte(), None);
}

#[test]
fn self_copy_overlap_repeats_byte() {
    let mut window = WindowSize::KB32.create_buffer();
    window.push(b'x');
    window.copy_from_self(1, 5);
    assert_eq!(window.pos, 6);
    assert_eq!(window.past_view(6).unwrap(), b"xxxxxx");
}

#[test]
fn window_too_small_for_raw_copy() {
    let buffer = [0u8; 4];
    let mut bitstream = Bitstream::new(&buffer);
    let mut window = WindowSize::KB32.create_buffer();
    assert_eq!(
        window.copy_from_bitstream(&mut bitstream, (1 << 15) + 1),
        Err(DecodeFailed::WindowTooSmall)
    );
    assert_eq!(
        window.copy_from_bitstream(&mut bitstream, 5),
        Err(DecodeFailed::UnexpectedEof)
    );
}

#[test]
fn tree_errors() {
    assert_eq!(
        Tree::from_path_lengths(vec![0; 8]).err(),
        Some(DecodeFailed::EmptyTree)
    );
    assert_eq!(
        Tree::from_path_lengths(vec![1, 1, 1]).err(),
        Some(DecodeFailed::InvalidPathLengths)
    );
    assert_eq!(
        Tree::from_path_lengths(vec![2, 0]).err(),
        Some(DecodeFailed::InvalidPathLengths)
    );
    let empty = CanonicalTree::new(249);
    assert!(empty.create_instance_allow_empty().unwrap().is_none());
    assert_eq!(empty.create_instance().err(), Some(DecodeFailed::EmptyTree));
}

/// A pretree whose symbols 1, 17, 18 and 19 have the 2-bit codes 00, 01, 10 and 11.
fn pretree_fields() -> Vec<(u32, u8)> {
    let mut fields = Vec::new();
    for symbol in 0..20 {
        let len = if symbol == 1 || symbol >= 17 { 2 } else { 0 };
        fields.push((len, 4));
    }
    fields
}

#[test]
fn pretree_run_lengths() {
    let mut fields = pretree_fields();
    // 19, same = 1, then symbol 1: five lengths of (0 - 1) mod 17 = 16.
    fields.extend_from_slice(&[(0b11, 2), (1, 1), (0b00, 2)]);
    // 17, 4 + 15 zeros.
    fields.extend_from_slice(&[(0b01, 2), (15, 4)]);
    // 18, 20 + 1 zeros.
    fields.extend_from_slice(&[(0b10, 2), (1, 5)]);
    // symbol 1: one length of 16.
    fields.push((0b00, 2));
    let bytes = pack(&fields);

    let mut tree = CanonicalTree::new(60);
    tree.path_lengths[5] = 3;
    let mut bitstream = Bitstream::new(&bytes);
    tree.update_range_with_pretree(&mut bitstream, 0..46).unwrap();

    let mut expected = vec![16u8; 5];
    expected.extend_from_slice(&[0; 19]);
    expected.extend_from_slice(&[0; 21]);
    expected.push(16);
    expected.extend_from_slice(&[0; 14]);
    assert_eq!(tree.path_lengths, expected);
}

#[test]
fn pretree_delta_is_mod_17() {
    let mut fields = pretree_fields();
    // Symbol 1 on a length of 5 gives 4, then on 0 gives 16.
    fields.extend_from_slice(&[(0b00, 2), (0b00, 2)]);
    let bytes = pack(&fields);
    let mut tree = CanonicalTree::new(4);
    tree.path_lengths[0] = 5;
    let mut bitstream = Bitstream::new(&bytes);
    tree.update_range_with_pretree(&mut bitstream, 0..2).unwrap();
    assert_eq!(tree.path_lengths, vec![4, 16, 0, 0]);
}

#[test]
fn pretree_run_past_end() {
    let mut fields = pretree_fields();
    fields.extend_from_slice(&[(0b01, 2), (0, 4)]);
    let bytes = pack(&fields);
    let mut tree = CanonicalTree::new(3);
    let mut bitstream = Bitstream::new(&bytes);
    assert_eq!(
        tree.update_range_with_pretree(&mut bitstream, 0..3),
        Err(DecodeFailed::InvalidPretreeRle)
    );
}

#[test]
fn pretree_19_needs_a_delta() {
    let mut fields = pretree_fields();
    fields.extend_from_slice(&[(0b11, 2), (0, 1), (0b01, 2)]);
    let bytes = pack(&fields);
    let mut tree = CanonicalTree::new(10);
    let mut bitstream = Bitstream::new(&bytes);
    assert_eq!(
        tree.update_range_with_pretree(&mut bitstream, 0..10),
        Err(DecodeFailed::InvalidPretreeElement(17))
    );
}

/// A main tree (for 30 position slots) whose symbols 256, 264, 272 and 280 (matches of
/// length 2 at slots 0, 1, 2 and 3) have the 2-bit codes 00, 01, 10 and 11.
fn match_tree() -> Tree {
    let mut lengths = vec![0u8; 256 + 8 * 30];
    for symbol in [256, 264, 272, 280] {
        lengths[symbol] = 2;
    }
    Tree::from_path_lengths(lengths).unwrap()
}

fn expect_match(decoded: Result<Decoded, DecodeFailed>, offset: usize, length: usize) {
    match decoded {
        Ok(Decoded::Match { offset: o, length: l }) => {
            assert_eq!((o, l), (offset, length));
        }
        other => panic!("expected a match, got {:?}", other),
    }
}

#[test]
fn repeated_offsets() {
    let main = match_tree();
    let bytes = pack(&[(0b00, 2), (0b00, 2), (0b01, 2), (0b10, 2), (0b11, 2)]);
    let mut bitstream = Bitstream::new(&bytes);
    let mut r = [5u32, 7, 9];

    // Slot 0 twice: the same offset, and no reordering.
    expect_match(decode_element(&mut bitstream, &mut r, None, &main, None), 5, 2);
    assert_eq!(r, [5, 7, 9]);
    expect_match(decode_element(&mut bitstream, &mut r, None, &main, None), 5, 2);
    assert_eq!(r, [5, 7, 9]);
    // Slot 1 swaps the first two.
    expect_match(decode_element(&mut bitstream, &mut r, None, &main, None), 7, 2);
    assert_eq!(r, [7, 5, 9]);
    // Slot 2 swaps the first and the last.
    expect_match(decode_element(&mut bitstream, &mut r, None, &main, None), 9, 2);
    assert_eq!(r, [9, 5, 7]);
    // Slot 3 (no footer bits, base 3) gives offset 1 and shifts the others.
    expect_match(decode_element(&mut bitstream, &mut r, None, &main, None), 1, 2);
    assert_eq!(r, [1, 9, 5]);
}

#[test]
fn match_length_needs_length_tree() {
    let mut lengths = vec![0u8; 256 + 8 * 30];
    lengths[0] = 1;
    lengths[256 + 7] = 1;
    let main = Tree::from_path_lengths(lengths).unwrap();
    let bytes = pack(&[(1, 1)]);
    let mut bitstream = Bitstream::new(&bytes);
    let mut r = [1u32, 1, 1];
    assert!(matches!(
        decode_element(&mut bitstream, &mut r, None, &main, None),
        Err(DecodeFailed::EmptyTree)
    ));
}

#[test]
fn literal_and_long_match() {
    let mut lengths = vec![0u8; 256 + 8 * 30];
    lengths[b'a' as usize] = 1;
    lengths[256 + 8 * 3 + 7] = 1;
    let main = Tree::from_path_lengths(lengths).unwrap();
    let mut len_lengths = vec![0u8; 249];
    len_lengths[0] = 1;
    len_lengths[100] = 1;
    let length = Tree::from_path_lengths(len_lengths).unwrap();
    // 'a', then a match at slot 3 with length symbol 100: 100 + 9 bytes.
    let bytes = pack(&[(0, 1), (1, 1), (1, 1)]);
    let mut bitstream = Bitstream::new(&bytes);
    let mut r = [1u32, 1, 1];
    assert!(matches!(
        decode_element(&mut bitstream, &mut r, None, &main, Some(&length)),
        Ok(Decoded::Single(b'a'))
    ));
    expect_match(
        decode_element(&mut bitstream, &mut r, None, &main, Some(&length)),
        1,
        109,
    );
}

#[test]
fn decompress_errors() {
    let mut lzxd = Lzxd::new(WindowSize::KB32);
    assert_eq!(
        lzxd.decompress_next(&[], 3),
        Err(DecompressError(DecodeFailed::UnexpectedEof))
    );

    let mut lzxd = Lzxd::new(WindowSize::KB64);
    assert_eq!(
        lzxd.decompress_next(&[0; 4], (1 << 15) + 1),
        Err(DecompressError(DecodeFailed::ChunkTooLong))
    );

    // No E8 translation, block type 0.
    let chunk = pack(&[(0, 1), (0, 3), (1, 24)]);
    let mut lzxd = Lzxd::new(WindowSize::KB32);
    assert_eq!(
        lzxd.decompress_next(&chunk, 1),
        Err(DecompressError(DecodeFailed::InvalidBlock(0)))
    );

    // An uncompressed block of size 0.
    let chunk = pack(&[(0, 1), (3, 3), (0, 24), (0, 32)]);
    let mut lzxd = Lzxd::new(WindowSize::KB32);
    assert_eq!(
        lzxd.decompress_next(&chunk, 1),
        Err(DecompressError(DecodeFailed::InvalidBlockSize(0)))
    );
}

#[test]
fn decompress_uncompressed_across_calls() {
    // An uncompressed block of 4 bytes, decoded as two chunks of 2.
    let mut chunk = vec![0x00, 0x30, 0x00, 0x02, 0x01, 0x00, 0x00, 0x00];
    chunk.extend_from_slice(&[0x01, 0x00, 0x00, 0x00, 0x01, 0x00, 0x00, 0x00]);
    chunk[1] = 0x30;
    chunk[2] = 0x40;
    chunk[3] = 0x00;
    chunk.extend_from_slice(b"wx");
    let mut lzxd = Lzxd::new(WindowSize::KB32);
    assert_eq!(lzxd.decompress_next(&chunk, 2).unwrap(), b"wx");
    assert_eq!(lzxd.decompress_next(b"yz", 2).unwrap(), b"yz");
}

#[test]
fn decompress_overread() {
    let data = [
        0x00, 0x30, 0x30, 0x00, 0x01, 0x00, 0x00, 0x00, 0x01, 0x00, 0x00, 0x00, 0x01, 0x00,
        0x00, 0x00, b'a', b'b', b'c', 0x00,
    ];
    let mut lzxd = Lzxd::new(WindowSize::KB32);
    assert_eq!(
        lzxd.decompress_next(&data, 2),
        Err(DecompressError(DecodeFailed::OverreadBlock))
    );
}

#[test]
fn reset_gives_same_output() {
    let data = [
        0x00, 0x30, 0x30, 0x00, 0x01, 0x00, 0x00, 0x00, 0x01, 0x00, 0x00, 0x00, 0x01, 0x00,
        0x00, 0x00, b'a', b'b', b'c', 0x00,
    ];
    let mut lzxd = Lzxd::new(WindowSize::MB1);
    let first = lzxd.decompress_next(&data, 3).unwrap().to_vec();
    lzxd.reset();
    let second = lzxd.decompress_next(&data, 3).unwrap().to_vec();
    assert_eq!(first, second);
    assert_eq!(first, b"abc");
}

#[test]
fn aligned_offset_footer() {
    // Main tree: literal 0 has code 0, the match symbol of slot 8 (3 footer bits) code 1.
    let mut lengths = vec![0u8; 256 + 8 * 30];
    lengths[0] = 1;
    lengths[256 + 8 * 8] = 1;
    let main = Tree::from_path_lengths(lengths).unwrap();
    // Aligned offset tree: every symbol has a 3-bit code equal to itself.
    let aligned = Tree::from_path_lengths(vec![3; 8]).unwrap();

    // Aligned block: no verbatim bits, aligned symbol 5; base 16, so offset 16 + 5 - 2.
    let bytes = pack(&[(1, 1), (5, 3)]);
    let mut bitstream = Bitstream::new(&bytes);
    let mut r = [1u32, 2, 3];
    expect_match(
        decode_element(&mut bitstream, &mut r, Some(&aligned), &main, None),
        19,
        2,
    );
    assert_eq!(r, [19, 1, 2]);

    // Verbatim block: the 3 footer bits are read as they are.
    let bytes = pack(&[(1, 1), (6, 3)]);
    let mut bitstream = Bitstream::new(&bytes);
    let mut r = [1u32, 2, 3];
    expect_match(decode_element(&mut bitstream, &mut r, None, &main, None), 20, 2);
    assert_eq!(r, [20, 1, 2]);
}
