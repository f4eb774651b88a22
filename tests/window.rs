use lzxd::{Bitstream, DecodeFailed, WindowSize};

#[test]
fn check_push() {
    let mut window = WindowSize::KB32.create_buffer();
    window.push(1);
    window.push(2);
    window.push(3);
    assert_eq!(window.pos, 3);
    assert_eq!(&window.buffer[..3], &[1, 2, 3]);
    assert!(window.buffer[3..].iter().all(|&x| x == 0));
}

#[test]
fn check_push_before_boundary() {
    let mut window = WindowSize::KB32.create_buffer();
    window.pos = window.buffer.len() - 1;
    window.push(1);
    assert_eq!(window.pos, 0);
}

#[test]
fn check_push_at_boundary() {
    let mut window = WindowSize::KB32.create_buffer();
    for _ in 0..((1 << 15) - 2) {
        window.push(0);
    }
    window.push(1);
    window.push(2);
    window.push(3);
    window.push(4);
    assert_eq!(window.pos, 2);
    assert_eq!(&window.buffer[window.buffer.len() - 2..], &[1, 2]);
    assert_eq!(&window.buffer[..2], &[3, 4]);
    assert!(window.buffer[2..window.buffer.len() - 2]
        .iter()
        .all(|&x| x == 0));
}

#[test]
fn check_copy_from_self() {
    let mut window = WindowSize::KB32.create_buffer();
    window.buffer[0] = 1;
    window.buffer[1] = 2;
    window.buffer[2] = 3;
    window.pos = 3;
    window.copy_from_self(3, 2);
    assert_eq!(window.pos, 5);
    assert_eq!(&window.buffer[..5], &[1, 2, 3, 1, 2]);
    assert!(window.buffer[5..].iter().all(|&x| x == 0));
}

#[test]
fn check_copy_from_self_overlap() {
    let mut window = WindowSize::KB32.create_buffer();
    window.buffer[0] = 1;
    window.buffer[1] = 2;
    window.buffer[2] = 3;
    window.pos = 3;
    window.copy_from_self(2, 3);
    assert_eq!(window.pos, 6);
    assert_eq!(&window.buffer[..6], &[1, 2, 3, 2, 3, 2]);
    assert!(window.buffer[6..].iter().all(|&x| x == 0));
}

#[test]
fn check_copy_at_boundary_from_self() {
    let mut window = WindowSize::KB32.create_buffer();
    let n = window.buffer.len();
    window.buffer[n - 3] = 1;
    window.buffer[n - 2] = 2;
    window.pos = window.buffer.len() - 1;
    window.copy_from_self(2, 2);
    assert_eq!(window.pos, 1);
    assert_eq!(window.buffer[0], 2);
    assert_eq!(&window.buffer[window.buffer.len() - 3..], &[1, 2, 1]);
    assert!(window.buffer[1..window.buffer.len() - 3]
        .iter()
        .all(|&x| x == 0));
}

#[test]
fn check_copy_from_self_before_boundary() {
    let mut window = WindowSize::KB32.create_buffer();
    let n = window.buffer.len();
    window.buffer[n - 4] = 1;
    window.buffer[n - 3] = 2;
    window.pos = window.buffer.len() - 2;
    window.copy_from_self(2, 2);
    assert_eq!(window.pos, 0);
}

#[test]
fn check_copy_from_self_at_boundary() {
    let mut window = WindowSize::KB32.create_buffer();
    let n = window.buffer.len();
    window.buffer[n - 2] = 1;
    window.buffer[n - 1] = 2;
    window.buffer[0] = 3;
    window.buffer[1] = 4;
    window.pos = 2;
    window.copy_from_self(4, 3);
    assert_eq!(window.pos, 5);
    assert_eq!(&window.buffer[..5], &[3, 4, 1, 2, 3]);
    assert_eq!(&window.buffer[window.buffer.len() - 2..], &[1, 2]);
    assert!(window.buffer[5..window.buffer.len() - 2]
        .iter()
        .all(|&x| x == 0));
}

#[test]
fn check_bitstream() {
    let buffer = [1, 2, 3, 4];
    let mut bitstream = Bitstream::new(&buffer);
    let mut window = WindowSize::KB32.create_buffer();
    window.copy_from_bitstream(&mut bitstream, 4).unwrap();
    assert_eq!(window.pos, 4);
    assert_eq!(&window.buffer[..4], &[1, 2, 3, 4]);
    assert!(window.buffer[4..].iter().all(|&x| x == 0));
}

#[test]
fn check_bitstream_before_boundary() {
    let buffer = [1, 2, 3, 4];
    let mut bitstream = Bitstream::new(&buffer);
    let mut window = WindowSize::KB32.create_buffer();
    window.pos = window.buffer.len() - 4;
    window.copy_from_bitstream(&mut bitstream, 4).unwrap();
    assert_eq!(window.pos, 0);
}

#[test]
fn check_bitstream_at_boundary() {
    let buffer = [1, 2, 3, 4];
    let mut bitstream = Bitstream::new(&buffer);
    let mut window = WindowSize::KB32.create_buffer();
    window.pos = window.buffer.len() - 2;
    window.copy_from_bitstream(&mut bitstream, 4).unwrap();
    assert_eq!(window.pos, 0);
    assert_eq!(&window.buffer[window.buffer.len() - 4..], &[1, 2, 3, 4]);
    assert!(window.buffer[..window.buffer.len() - 4]
        .iter()
        .all(|&x| x == 0));
}

#[test]
fn check_past_view() {
    let mut window = WindowSize::KB32.create_buffer();
    window.buffer[0] = 1;
    window.buffer[1] = 2;
    window.buffer[2] = 3;
    window.pos = 3;
    assert_eq!(window.past_view(2).unwrap(), &[2, 3]);
    assert_eq!(window.past_view(3).unwrap(), &[1, 2, 3]);
}

#[test]
fn check_past_view_at_boundary() {
    let mut window = WindowSize::KB32.create_buffer();
    let n = window.buffer.len();
    window.buffer[n - 2] = 1;
    window.buffer[n - 1] = 2;
    window.buffer[0] = 3;
    window.buffer[1] = 4;
    window.pos = 2;
    assert_eq!(window.past_view(4).unwrap(), &[1, 2, 3, 4]);
}

#[test]
fn check_past_view_too_long() {
    let mut window = WindowSize::KB32.create_buffer();
    assert_eq!(
        window.past_view(1 << 15 + 1),
        Err(DecodeFailed::ChunkTooLong)
    );
}

#[test]
fn check_past_view_new_max_size() {
    let mut window = WindowSize::KB32.create_buffer();
    assert!(window.past_view(1 << 15).is_ok());
}

#[test]
fn check_past_view_shifted_max_size() {
    let mut window = WindowSize::KB32.create_buffer();
    window.pos = 123;
    assert!(window.past_view(1 << 15).is_ok());
}
