use discipline_net::feistel::{g, h};
use discipline_net::hexdump::hex_dump;
use discipline_net::transform::{join2x32, split2x32, BlockTransform, Transformer};

const KEY: [u32; 4] = [0x12931133, 0x94813456, 0x19293456, 0x9911aacc];

fn frame_len(m: usize) -> usize {
    if m % 8 == 0 {
        16 + m
    } else {
        24 + m - m % 8
    }
}

fn seal(xfo: &mut BlockTransform, plain: &[u8]) -> Vec<u8> {
    let mut buf = vec![0xaa_u8; frame_len(plain.len()) + 5];
    let n = xfo.encode(plain, &mut buf).expect("encode always succeeds");
    assert_eq!(n, frame_len(plain.len()));
    assert!(buf[n..].iter().all(|b| *b == 0xaa));
    buf.truncate(n);
    buf
}

fn open(xfo: &mut BlockTransform, frame: &[u8]) -> Option<Vec<u8>> {
    let mut buf = vec![0x55_u8; frame.len()];
    let n = xfo.decode(frame, &mut buf)?;
    buf.truncate(n);
    Some(buf)
}

fn header_counter(frame: &[u8]) -> u64 {
    let mut a = [0_u8; 8];
    a.copy_from_slice(&frame[0..8]);
    u64::from_le_bytes(a) >> 3
}

#[test]
fn test_block_transform() {
    let mut xfo = BlockTransform::new(KEY, 0x0123_4567_89ab_cdef);
    let mut u = [0_u8; 320];
    for i in 0..u.len() {
        u[i] = (i & 255) as u8;
    }
    println!("u:");
    println!("{}", hex_dump(&u));
    let mut v = [0_u8; 1024];
    match xfo.encode(&u, &mut v) {
        Some(n) => {
            println!("v:");
            println!("{}", hex_dump(&v[0..n]));
            let mut w = [0_u8; 1024];
            match xfo.decode(&v[0..n], &mut w) {
                Some(p) => {
                    println!("n={} p={}", n, p);
                    if u.len() != p {
                        panic!("Length error");
                    }
                    if &u[0..p] != &w[0..p] {
                        panic!("Mismatch");
                    }
                    println!("w:");
                    println!("{}", hex_dump(&w[0..p]));
                }
                None => panic!("Decoding error"),
            }
        }
        None => panic!("Decoding error"),
    }
}

#[test]
fn round_known_answer() {
    assert_eq!(g((1, 2), KEY), (0x91e7e48a, 0x97e2afb4));
}

#[test]
fn permutation_known_answers() {
    assert_eq!(h((0, 0), KEY), (0x0e2b0bd4, 0x96d414cc));
    assert_eq!(h((0x01234567, 0x89abcdef), KEY), (0xd9fa3686, 0x33e83f8a));
}

#[test]
fn permutation_depends_on_key_and_block() {
    let other = [KEY[0] ^ 1, KEY[1], KEY[2], KEY[3]];
    assert_ne!(h((0, 0), KEY), h((0, 0), other));
    assert_ne!(h((0, 0), KEY), h((0, 1), KEY));
    assert_ne!(h((0, 0), KEY), (0, 0));
}

#[test]
fn split_and_join_are_little_endian() {
    assert_eq!(
        split2x32([0x01, 0x02, 0x03, 0x04, 0x05, 0x06, 0x07, 0x08]),
        (0x04030201, 0x08070605)
    );
    assert_eq!(
        join2x32(0x04030201, 0x08070605),
        [0x01, 0x02, 0x03, 0x04, 0x05, 0x06, 0x07, 0x08]
    );
    assert_eq!(join2x32(0xffff_ffff, 0), [0xff, 0xff, 0xff, 0xff, 0, 0, 0, 0]);
    for x in [0_u32, 1, 0x8000_0000, 0xdead_beef, 0xffff_ffff] {
        for y in [0_u32, 7, 0x0102_0304, 0xffff_fffe] {
            assert_eq!(split2x32(join2x32(x, y)), (x, y));
        }
    }
}

#[test]
fn hello_world_frame_is_32_bytes_and_opens() {
    let mut xfo = BlockTransform::new(KEY, 0);
    let frame = seal(&mut xfo, b"Hello, World!");
    assert_eq!(frame.len(), 32);
    assert_eq!(
        frame,
        vec![
            5, 0, 0, 0, 0, 0, 0, 0, 156, 110, 71, 98, 163, 56, 244, 193, 191, 72, 209, 220, 237,
            241, 55, 61, 112, 71, 89, 11, 158, 236, 34, 123
        ]
    );
    assert_eq!(open(&mut xfo, &frame), Some(b"Hello, World!".to_vec()));
}

#[test]
fn header_packs_counter_and_length_remainder() {
    let mut xfo = BlockTransform::new(KEY, 0x0123_4567_89ab_cdef);
    let frame = seal(&mut xfo, b"Hello, World!");
    assert_eq!(&frame[0..8], &[0x7d, 0x6f, 0x5e, 0x4d, 0x3c, 0x2b, 0x1a, 0x09]);
    assert_eq!(header_counter(&frame), 0x0123_4567_89ab_cdef);
    assert_eq!(frame[0] & 7, 13 % 8);
}

#[test]
fn top_three_bits_of_the_counter_are_masked() {
    let mut xfo = BlockTransform::new(KEY, u64::MAX);
    let plain: Vec<u8> = (0..16).collect();
    let frame = seal(&mut xfo, &plain);
    assert_eq!(header_counter(&frame), 0x1fff_ffff_ffff_ffff);
    assert_eq!(
        frame,
        vec![
            0xf8, 0xff, 0xff, 0xff, 0xff, 0xff, 0xff, 0xff, 0x8b, 0xdf, 0x48, 0x9c, 0x6c, 0x1f,
            0x55, 0xe1, 0xa9, 0x00, 0x65, 0xff, 0x78, 0x88, 0x1e, 0x37, 0xde, 0xb3, 0x2d, 0xd2,
            0xc8, 0x71, 0x8c, 0xec
        ]
    );
    assert_eq!(open(&mut xfo, &frame), Some(plain));
}

#[test]
fn round_trip_for_every_length() {
    let mut xfo = BlockTransform::new(KEY, 0xfeed_face_cafe_beef);
    for m in 1..=300_usize {
        let plain: Vec<u8> = (0..m).map(|i| (i * 7 + m) as u8).collect();
        let frame = seal(&mut xfo, &plain);
        assert_eq!(frame.len(), frame_len(m));
        assert_eq!(frame.len() % 8, 0);
        assert_eq!(open(&mut xfo, &frame), Some(plain));
    }
}

#[test]
fn round_trip_at_4096_bytes() {
    let mut xfo = BlockTransform::new(KEY, 42);
    let plain: Vec<u8> = (0..4096_usize).map(|i| (i % 251) as u8).collect();
    let frame = seal(&mut xfo, &plain);
    assert_eq!(frame.len(), 16 + 4096);
    assert_eq!(open(&mut xfo, &frame), Some(plain));
}

#[test]
fn frame_length_formula() {
    assert_eq!(frame_len(0), 16);
    assert_eq!(frame_len(1), 24);
    assert_eq!(frame_len(7), 24);
    assert_eq!(frame_len(8), 24);
    assert_eq!(frame_len(9), 32);
    assert_eq!(frame_len(13), 32);
    assert_eq!(frame_len(16), 32);
    let mut xfo = BlockTransform::new(KEY, 1);
    for m in [0_usize, 1, 7, 8, 9, 13, 16, 17, 24] {
        let plain = vec![0x33_u8; m];
        assert_eq!(seal(&mut xfo, &plain).len(), frame_len(m));
    }
}

#[test]
fn empty_plaintext_seals_to_16_bytes_that_do_not_open() {
    let mut xfo = BlockTransform::new(KEY, 5);
    let frame = seal(&mut xfo, b"");
    assert_eq!(frame, vec![0x28, 0, 0, 0, 0, 0, 0, 0, 0, 0, 0, 0, 5, 0, 0, 0]);
    assert_eq!(open(&mut xfo, &frame), None);
}

#[test]
fn decode_needs_no_state_of_the_sealer() {
    let mut sealer = BlockTransform::new(KEY, 123_456_789);
    let mut opener = BlockTransform::new(KEY, 0);
    let frame = seal(&mut sealer, b"across instances");
    assert_eq!(open(&mut opener, &frame), Some(b"across instances".to_vec()));
}

#[test]
fn decode_under_another_key_rejects() {
    let mut sealer = BlockTransform::new(KEY, 9);
    let mut other = BlockTransform::new([1, 2, 3, 4], 9);
    let frame = seal(&mut sealer, b"Hello, World!");
    assert_eq!(open(&mut other, &frame), None);
}

#[test]
fn counters_advance_by_one_per_block() {
    let mut xfo = BlockTransform::new(KEY, 1000);
    let first = seal(&mut xfo, &[1_u8; 17]);
    let second = seal(&mut xfo, &[2_u8; 8]);
    let third = seal(&mut xfo, &[3_u8; 1]);
    assert_eq!(header_counter(&first), 1000);
    assert_eq!(header_counter(&second), 1003);
    assert_eq!(header_counter(&third), 1004);
    assert!(header_counter(&first) < header_counter(&second));
    assert!(header_counter(&second) < header_counter(&third));
}

#[test]
fn same_plaintext_seals_differently_each_time() {
    let mut xfo = BlockTransform::new(KEY, 77);
    let first = seal(&mut xfo, b"Hello, World!");
    let second = seal(&mut xfo, b"Hello, World!");
    assert_ne!(first, second);
    assert_ne!(&first[8..24], &second[8..24]);
    assert_eq!(open(&mut xfo, &first), Some(b"Hello, World!".to_vec()));
    assert_eq!(open(&mut xfo, &second), Some(b"Hello, World!".to_vec()));
}

#[test]
fn counter_starts_over_after_61_bits() {
    let mut xfo = BlockTransform::new(KEY, 0x1fff_ffff_ffff_ffff);
    let first = seal(&mut xfo, &[9_u8; 1]);
    let second = seal(&mut xfo, &[9_u8; 1]);
    assert_eq!(header_counter(&first), 0x1fff_ffff_ffff_ffff);
    assert_eq!(header_counter(&second), 0);
}

#[test]
fn decode_rejects_short_and_ragged_lengths() {
    let mut xfo = BlockTransform::new(KEY, 3);
    let frame = seal(&mut xfo, &[0x42_u8; 64]);
    for n in 0..frame.len() {
        if n < 24 || n % 8 != 0 {
            let mut buf = vec![0x55_u8; 128];
            assert_eq!(xfo.decode(&frame[0..n], &mut buf), None, "length {}", n);
            assert!(buf.iter().all(|b| *b == 0x55));
        }
    }
    let mut empty: [u8; 0] = [];
    assert_eq!(xfo.decode(&[], &mut empty), None);
    assert_eq!(xfo.decode(&[0_u8; 23], &mut empty), None);
    assert_eq!(xfo.decode(&[0_u8; 25], &mut empty), None);
}

#[test]
fn decode_rejects_truncated_frames() {
    let mut xfo = BlockTransform::new(KEY, 3);
    let frame = seal(&mut xfo, &[0x42_u8; 64]);
    let mut n = 24;
    while n < frame.len() {
        assert_eq!(open(&mut xfo, &frame[0..n]), None, "length {}", n);
        n += 8;
    }
    assert_eq!(open(&mut xfo, &frame), Some(vec![0x42_u8; 64]));
}

#[test]
fn every_flipped_bit_is_rejected_but_the_length_bits() {
    let mut xfo = BlockTransform::new(KEY, 0x00c0_ffee);
    for m in [1_usize, 8, 13, 16, 29] {
        let plain: Vec<u8> = (0..m).map(|i| (i * 3) as u8).collect();
        let frame = seal(&mut xfo, &plain);
        for at in 0..frame.len() {
            for bit in 0..8 {
                let mut bad = frame.clone();
                bad[at] ^= 1 << bit;
                let got = open(&mut xfo, &bad);
                if at == 0 && bit < 3 {
                    let got = got.expect("the tag does not cover the length bits");
                    assert_ne!(got.len(), m);
                } else {
                    assert_eq!(got, None, "m={} at={} bit={}", m, at, bit);
                }
            }
        }
    }
}

#[test]
fn every_changed_byte_is_rejected() {
    let mut xfo = BlockTransform::new(KEY, 0xabcdef);
    let frame = seal(&mut xfo, b"Hello, World!");
    for at in 0..frame.len() {
        let mut bad = frame.clone();
        bad[at] ^= 0xff;
        assert_eq!(open(&mut xfo, &bad), None, "at={}", at);
    }
}

#[test]
fn swapped_blocks_are_rejected() {
    let mut xfo = BlockTransform::new(KEY, 0xabcdef);
    let plain: Vec<u8> = (0..24).collect();
    let frame = seal(&mut xfo, &plain);
    let mut bad = frame.clone();
    for i in 0..8 {
        bad.swap(8 + i, 16 + i);
    }
    assert_ne!(bad, frame);
    assert_eq!(open(&mut xfo, &bad), None);
}

#[test]
fn decode_leaves_the_rest_of_the_buffer_alone() {
    let mut xfo = BlockTransform::new(KEY, 11);
    let frame = seal(&mut xfo, b"Hello, World!");
    let mut buf = vec![0x55_u8; 40];
    assert_eq!(xfo.decode(&frame, &mut buf), Some(13));
    assert_eq!(&buf[0..13], b"Hello, World!");
    assert!(buf[13..].iter().all(|b| *b == 0x55));
}

#[test]
fn decode_works_in_a_buffer_of_exactly_the_plaintext() {
    let mut xfo = BlockTransform::new(KEY, 11);
    let frame = seal(&mut xfo, b"Hello, World!");
    let mut buf = [0_u8; 13];
    assert_eq!(xfo.decode(&frame, &mut buf), Some(13));
    assert_eq!(&buf, b"Hello, World!");
}

fn through<T: Transformer>(xfo: &mut T, plain: &[u8]) -> Option<Vec<u8>> {
    let mut frame = vec![0_u8; plain.len() + 24];
    let n = xfo.encode(plain, &mut frame)?;
    let mut back = vec![0_u8; n];
    let m = xfo.decode(&frame[0..n], &mut back)?;
    back.truncate(m);
    Some(back)
}

#[test]
fn any_transformer_is_used_through_the_trait() {
    let mut xfo = BlockTransform::new(KEY, 2024);
    assert_eq!(through(&mut xfo, b"through the trait"), Some(b"through the trait".to_vec()));
    assert_eq!(through(&mut xfo, b""), None);
}
