use lzxd::{Bitstream, Tree};

#[test]
fn decode_simple_table() {
    // Based on some aligned offset tree
    let tree = Tree::from_path_lengths(vec![6, 5, 1, 3, 4, 6, 2, 0]).unwrap();
    let value_count = vec![(2, 32), (6, 16), (3, 8), (4, 4), (1, 2), (0, 1), (5, 1)];

    let mut i = 0;
    for (value, count) in value_count.into_iter() {
        (0..count).for_each(|_| {
            assert_eq!(tree.huffman_tree[i], value);
            i += 1;
        })
    }
}

#[test]
fn decode_complex_table() {
    // Based on the pretree of some length tree
    let tree = Tree::from_path_lengths(vec![
        1, 0, 0, 0, 0, 7, 3, 3, 4, 4, 5, 5, 5, 7, 8, 8, 0, 7, 0, 0,
    ])
    .unwrap();
    let value_count = vec![
        (0, 128),
        (6, 32),
        (7, 32),
        (8, 16),
        (9, 16),
        (10, 8),
        (11, 8),
        (12, 8),
        (5, 2),
        (13, 2),
        (17, 2),
        (14, 1),
        (15, 1),
    ];

    let mut i = 0;
    for (value, count) in value_count.into_iter() {
        (0..count).for_each(|_| {
            assert_eq!(tree.huffman_tree[i], value);
            i += 1;
        })
    }
}

#[test]
fn decode_elements() {
    let tree = Tree::from_path_lengths(vec![6, 5, 1, 3, 4, 6, 2, 0]).unwrap();

    let buffer = [0x5b, 0xda, 0x3f, 0xf8];
    let mut bitstream = Bitstream::new(&buffer);
    bitstream.read_bits(11).unwrap();
    assert_eq!(tree.decode_element(&mut bitstream), Ok(3));
    assert_eq!(tree.decode_element(&mut bitstream), Ok(5));
    assert_eq!(tree.decode_element(&mut bitstream), Ok(6));
    assert_eq!(tree.decode_element(&mut bitstream), Ok(2));
}
