use lzxd::{Lzxd, WindowSize};

#[test]
fn check_uncompressed() {
    let data = [
        0x00, 0x30, 0x30, 0x00, 0x01, 0x00, 0x00, 0x00, 0x01, 0x00, 0x00, 0x00, 0x01, 0x00,
        0x00, 0x00, b'a', b'b', b'c', 0x00,
    ];

    let mut lzxd = Lzxd::new(WindowSize::KB32); // size does not matter
    let res = lzxd.decompress_next(&data, 3);
    assert_eq!(res.unwrap(), [b'a', b'b', b'c']);
}

#[test]
fn reset() {
    let data = [
        0x00, 0x30, 0x30, 0x00, 0x01, 0x00, 0x00, 0x00, 0x01, 0x00, 0x00, 0x00, 0x01, 0x00,
        0x00, 0x00, b'a', b'b', b'c', 0x00,
    ];

    let mut lzxd = Lzxd::new(WindowSize::KB32); // size does not matter
    let res = lzxd.decompress_next(&data, 3);
    assert_eq!(res.unwrap(), [b'a', b'b', b'c']);

    lzxd.reset();
    let res = lzxd.decompress_next(&data, 3);
    assert_eq!(res.unwrap(), [b'a', b'b', b'c']);
}

#[test]
fn check_e8() {
    let data = [
        0x5B, 0x80, 0x80, 0x8D, 0x00, 0x30, 0x80, 0x0A, 0x18, 0x00, 0x00, 0x00, 0x01, 0x00,
        0x00, 0x00, 0x05, 0x00, 0x00, 0x00, 0x54, 0x68, 0x69, 0x73, 0x20, 0x66, 0x69, 0x6C,
        0x65, 0x20, 0x68, 0x61, 0x73, 0x20, 0x61, 0x6E, 0x20, 0x45, 0x38, 0x20, 0x62, 0x79,
        0x74, 0x65, 0x20, 0x74, 0x6F, 0x20, 0x74, 0x65, 0x73, 0x74, 0x20, 0x45, 0x38, 0x20,
        0x74, 0x72, 0x61, 0x6E, 0x73, 0x6C, 0x61, 0x74, 0x69, 0x6F, 0x6E, 0x2C, 0x20, 0x58,
        0x64, 0x64, 0x64, 0x64, 0x64, 0x64, 0x64, 0x64, 0x64, 0x64, 0x64, 0x64, 0x64, 0x64,
        0x64, 0x64, 0x64, 0x64, 0x64, 0x64, 0x64, 0x64, 0x64, 0x64, 0x64, 0x64, 0x64, 0x64,
        0x64, 0x64, 0x64, 0x64, 0x64, 0x64, 0x64, 0x64, 0x64, 0x64, 0x64, 0x64, 0x64, 0x64,
        0x64, 0x64, 0x64, 0x64, 0x64, 0x64, 0x64, 0x64, 0x64, 0x64, 0x64, 0x64, 0x64, 0x64,
        0x64, 0x64, 0x64, 0x64, 0x64, 0x64, 0x64, 0x64, 0x64, 0x64, 0x64, 0x64, 0x64, 0x64,
        0x64, 0x64, 0x64, 0x64, 0x64, 0x64, 0x64, 0x64, 0x64, 0x64, 0x64, 0x64, 0x64, 0x64,
        0x64, 0x64, 0x64, 0x64, 0x64, 0x64, 0x64, 0x64, 0x64, 0x64, 0x64, 0x64, 0xE8, 0x7B,
        0x00, 0x00, 0x00, 0xE8, 0x7B, 0x00, 0x00, 0x00, 0x64, 0x64, 0x64, 0x64, 0x64, 0x64,
        0x64, 0x64, 0x64, 0x64, 0x64, 0x64,
    ];

    let mut lzxd = Lzxd::new(WindowSize::KB32);
    let res = lzxd.decompress_next(&data, 168);
    assert_eq!(
        res.unwrap(),
        b"This file has an E8 byte to test E8 translation, Xdddddddddddddddd\
          dddddddddddddddddddddddddddddddddddddddddddddddddddddddddddddddddd\
          dddddddddddddd\xE8\xE9\xFF\xFF\xFF\xE8\xE4\xFF\xFF\xFFdddddddddddd"
    );
}
