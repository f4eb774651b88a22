use lzxd::Bitstream;

#[test]
fn read_sequential() {
    // 0..=10 and padding using the least amount of bits possible, read LTR
    let ns = [0b0_1_10_11_100_101_110_1u16, 0b11_1000_1001_1010_00u16];
    let bit_lengths = [1u8, 1, 2, 2, 3, 3, 3, 3, 4, 4, 4];

    // Convert input sequence of 16-bit integers to byte-stream
    let mut bytes = Vec::with_capacity(ns.len() * 2);
    ns.iter().for_each(|n| bytes.extend(&n.to_le_bytes()));

    let mut bitstream = Bitstream::new(&bytes);
    bit_lengths
        .iter()
        .copied()
        .enumerate()
        .for_each(|(value, bit_length)| {
            assert_eq!(bitstream.read_bits(bit_length), Ok(value as u32));
        });
}

#[test]
fn read_32le() {
    let bytes = [0x56, 0x78, 0x12, 0x34];
    let mut bitstream = Bitstream::new(&bytes);

    assert_eq!(bitstream.read_u32_le(), Ok(873625686));
}

#[test]
fn read_24be() {
    let ns = [0b0000_1100_0001_1000_u16, 0b0001_1000_0011_0000_u16];
    let mut bytes = Vec::with_capacity(ns.len() * 2);
    ns.iter().for_each(|n| bytes.extend(&n.to_le_bytes()));

    let mut bitstream = Bitstream::new(&bytes);

    assert_eq!(bitstream.read_bits(4), Ok(0));
    assert_eq!(bitstream.read_u24_be(), Ok(0b1100_0001_1000_0001_1000_0011));
    assert_eq!(bitstream.read_bits(4), Ok(0));
}

#[test]
fn align() {
    let bytes = [0b0100_0000, 0b0010_0000, 0b1000_0000, 0b0110_0000];
    let mut bitstream = Bitstream::new(&bytes);

    assert_eq!(bitstream.read_bits(3), Ok(1));
    bitstream.align().unwrap();
    assert_eq!(bitstream.read_bits(3), Ok(3));
}

#[test]
fn no_remain_after_aligned() {
    let bytes = [0b0100_0000, 0b0010_0000, 0b1000_0000, 0b0110_0000];
    let mut bitstream = Bitstream::new(&bytes);

    bitstream.read_bits(3).unwrap();
    assert_ne!(bitstream.remaining, 0);

    bitstream.align().unwrap();
    assert_eq!(bitstream.remaining, 0);

    bitstream.read_bits(16).unwrap();
    assert_eq!(bitstream.remaining, 0);
}

#[test]
fn check_read_bit() {
    let bytes = [0b0110_1001, 0b1001_0110];
    let mut bitstream_1 = Bitstream::new(&bytes);
    let mut bitstream_n = Bitstream::new(&bytes);

    (0..16).for_each(|_| {
        assert_eq!(
            bitstream_1.read_bit().map(|b| b as u32),
            bitstream_n.read_bits(1)
        )
    });
}

#[test]
fn read_bit_positions_match_description() {
    // bits _abcdefgh_ijklmnop_qrstuvwx_yzABCDEF become:
    let bit_indices: [u32; 32] = [
        8,  // i
        9,  // j
        10, // k
        11, // l
        12, // m
        13, // n
        14, // o
        15, // p
        0,  // a
        1,  // b
        2,  // c
        3,  // d
        4,  // e
        5,  // f
        6,  // g
        7,  // h
        24, // y
        25, // z
        26, // A
        27, // B
        28, // C
        29, // D
        30, // E
        31, // F
        16, // q
        17, // r
        18, // s
        19, // t
        20, // u
        21, // v
        22, // w
        23, // x
    ];
    for (index, bit_index) in bit_indices.iter().copied().enumerate() {
        let n = 1u32.rotate_right(1).rotate_right(bit_index);
        let bytes = n.to_be_bytes();
        println!("index={index}, bit_index={bit_index}, bytes={n:032b}");

        let mut bitstream = Bitstream::new(&bytes);

        if index != 0 {
            assert_eq!(bitstream.read_bits(index as u8), Ok(0));
        }

        assert_eq!(bitstream.read_bit(), Ok(1));

        if let Some(remaining) = 31usize.checked_sub(index) {
            assert_eq!(bitstream.read_bits(remaining as u8), Ok(0));
        }
    }
}

#[test]
fn read_equals_peek() {
    for index in 0..20 {
        let n =
            (0b11_0_111_0_11111_0_1111111_0_11111111111_0_1111111111111u64).rotate_left(index);

        let bytes = n.to_be_bytes();
        for offset in 0..20 {
            for size in 0..20 {
                let mut bitstream = Bitstream::new(&bytes);
                bitstream.read_bits(offset).unwrap();

                let peeked = bitstream.peek_bits(size);
                assert_eq!(
                    bitstream.read_bits(size),
                    Ok(peeked),
                    "offset={offset}, size={size}, bytes={n:032b}",
                );
            }
        }
    }
}
