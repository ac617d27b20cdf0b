//! LZ4 blocks.

use erofs::compression::lz4::{decompress_partial, read_length};
use erofs::errnos::{Errno, PosixResult};

fn decompress(src: &[u8], out_len: usize) -> PosixResult<Vec<u8>> {
    let mut dst = vec![0u8; out_len];
    let n = decompress_partial(src, &mut dst)?;
    dst.truncate(n);
    Ok(dst)
}

#[test]
fn literal_only_block() {
    // One literal, and the output is full.
    assert_eq!(decompress(&[0x10, b'A'], 1).unwrap(), b"A");
}

#[test]
fn short_offset_match() {
    // One literal, and a match of 3 + 4 = 7 bytes at the distance 1.
    let out = decompress(&[0x13, b'A', 0x01, 0x00], 8).unwrap();
    assert_eq!(out, vec![b'A'; 8]);
}

#[test]
fn long_literal_run() {
    // 0xf + 0xff + 0x02 = 272 literals.
    let mut src = vec![0xf0, 0xff, 0x02];
    src.extend(std::iter::repeat(b'B').take(272));
    let out = decompress(&src, 272).unwrap();
    assert_eq!(out, vec![b'B'; 272]);
}

#[test]
fn long_match_run() {
    // One literal, and a match whose length has four extension bytes.
    let src = vec![0x1f, b'A', 0x01, 0x00, 0xff, 0xff, 0xff, 0x02];
    let out = decompress(&src, 1 + 4 + 0xff + 0xff + 0xff + 0x02).unwrap();
    assert_eq!(out, vec![b'A'; 1 + 4 + 0xff * 3 + 2]);
}

#[test]
fn partial_decode_stops_at_target() {
    let src = vec![0x1f, b'A', 0x01, 0x00, 0xff, 0xff, 0xff, 0x02];
    let out = decompress(&src, 16).unwrap();
    assert_eq!(out, vec![b'A'; 16]);
}

#[test]
fn overlapping_match_doubling() {
    // Two literals, and a match of six bytes at the distance 2.
    let src = vec![0x22, b'a', b'b', 0x02, 0x00];
    assert_eq!(decompress(&src, 8).unwrap(), b"abababab");
}

#[test]
fn offset_zero_is_rejected() {
    assert_eq!(
        decompress(&[0x10, b'A', 0x00, 0x00], 8).unwrap_err(),
        Errno::EUCLEAN
    );
}

#[test]
fn offset_beyond_produced_is_rejected() {
    assert_eq!(
        decompress(&[0x10, b'A', 0x05, 0x00], 8).unwrap_err(),
        Errno::EUCLEAN
    );
}

#[test]
fn truncated_input_is_rejected() {
    // A literal is announced and missing.
    assert_eq!(decompress(&[0x10], 8).unwrap_err(), Errno::EUCLEAN);
    // One byte of a distance.
    assert_eq!(
        decompress(&[0x10, b'A', 0x01], 8).unwrap_err(),
        Errno::EUCLEAN
    );
    // A length that is cut off.
    assert_eq!(decompress(&[0xf0, 0xff], 8).unwrap_err(), Errno::EUCLEAN);
}

#[test]
fn literal_beyond_input_is_rejected() {
    // Four literals are announced, and two are there.
    assert_eq!(
        decompress(&[0x40, b'a', b'b'], 8).unwrap_err(),
        Errno::EUCLEAN
    );
}

#[test]
fn an_output_of_nothing_needs_no_input() {
    assert_eq!(decompress(&[], 0), Ok(vec![]));
    assert_eq!(decompress(&[], 1), Err(Errno::EUCLEAN));
}

#[test]
fn a_shorter_output_is_the_front_of_a_longer_one() {
    // "abc", a match of 10 bytes at the distance 3, and "xyz".
    let src = [0x36, b'a', b'b', b'c', 0x03, 0x00, 0x30, b'x', b'y', b'z'];
    let whole = decompress(&src, 16).unwrap();
    assert_eq!(whole, b"abcabcabcabcaxyz");
    for len in 0..=16 {
        assert_eq!(decompress(&src, len).unwrap(), &whole[..len]);
    }
}

#[test]
fn a_match_repeats_with_its_distance() {
    let src = [0x44, 1, 2, 3, 4, 0x04, 0x00];
    let out = decompress(&src, 12).unwrap();
    for i in 4..12 {
        assert_eq!(out[i], out[i - 4]);
    }
}

#[test]
fn what_was_decoded_before_an_error_stays() {
    let mut dst = [9u8; 8];
    assert_eq!(
        decompress_partial(&[0x20, 1, 2, 0x00, 0x00], &mut dst),
        Err(Errno::EUCLEAN)
    );
    assert_eq!(dst, [1, 2, 9, 9, 9, 9, 9, 9]);
}

#[test]
fn lengths_are_extended() {
    let src = [0xff, 0xff, 0x03, 0x55];
    let mut ip = 0;
    assert_eq!(read_length(&src, &mut ip, 15), Ok(15 + 255 + 255 + 3));
    assert_eq!(ip, 3);
    let mut ip = 1;
    assert_eq!(read_length(&src[..2], &mut ip, 15), Err(Errno::EUCLEAN));
}

fn push_length(block: &mut Vec<u8>, len: usize) {
    if len >= 15 {
        let mut rest = len - 15;
        while rest >= 255 {
            block.push(255);
            rest -= 255;
        }
        block.push(rest as u8);
    }
}

#[test]
fn a_block_that_was_encoded_is_decoded() {
    // Literals, distance and length of each sequence.
    let seqs: [(Vec<u8>, usize, usize); 5] = [
        (b"hello".to_vec(), 5, 4),
        (vec![], 1, 19),
        ((0..=255).collect(), 256, 274),
        (vec![9; 15], 3, 300),
        (vec![8; 270], 400, 18),
    ];
    for last in [vec![], b"end".to_vec(), vec![7; 600]] {
        let mut block = Vec::new();
        let mut plain: Vec<u8> = Vec::new();
        for (lit, distance, len) in &seqs {
            block.push((lit.len().min(15) * 16 + (len - 4).min(15)) as u8);
            push_length(&mut block, lit.len());
            block.extend_from_slice(lit);
            block.extend_from_slice(&(*distance as u16).to_le_bytes());
            push_length(&mut block, len - 4);
            plain.extend_from_slice(lit);
            for _ in 0..*len {
                plain.push(plain[plain.len() - distance]);
            }
        }
        block.push((last.len().min(15) * 16) as u8);
        push_length(&mut block, last.len());
        block.extend_from_slice(&last);
        plain.extend_from_slice(&last);
        assert_eq!(decompress(&block, plain.len()).unwrap(), plain);
    }
}

#[test]
fn a_block_may_end_before_the_output_is_full() {
    let mut dst = [0u8; 8];
    // Behind literals.
    assert_eq!(decompress_partial(&[0x10, b'A'], &mut dst), Ok(1));
    assert_eq!(dst, [b'A', 0, 0, 0, 0, 0, 0, 0]);
    // Behind a match of five bytes.
    assert_eq!(decompress(&[0x11, b'A', 0x01, 0x00], 8), Ok(vec![b'A'; 6]));
    // Behind no literals at all.
    assert_eq!(decompress(&[0x00], 8), Ok(vec![]));
    // Half an offset is not an end, nor is half a sequence.
    assert_eq!(decompress(&[0x10, b'A', 0x01], 8), Err(Errno::EUCLEAN));
    assert_eq!(decompress(&[0x1f, b'A', 0x01, 0x00], 8), Err(Errno::EUCLEAN));
}

#[test]
fn more_room_yields_no_more_than_the_block_holds() {
    let src = [0x36, b'a', b'b', b'c', 0x03, 0x00, 0x30, b'x', b'y', b'z'];
    for room in 16..20 {
        assert_eq!(decompress(&src, room).unwrap(), b"abcabcabcabcaxyz");
    }
}

#[test]
fn a_length_that_fails_says_how_far_it_was_read() {
    let src = [0xff, 0xff];
    let mut ip = 0;
    assert_eq!(read_length(&src, &mut ip, 15), Err(Errno::EUCLEAN));
    assert_eq!(ip, 2);
    let mut ip = 0;
    assert_eq!(
        read_length(&src, &mut ip, usize::MAX - 300),
        Err(Errno::EUCLEAN)
    );
    assert_eq!(ip, 2);
    let mut ip = 1;
    assert_eq!(read_length(&[0, 9, 0], &mut ip, usize::MAX), Err(Errno::EUCLEAN));
    assert_eq!(ip, 2);
    // Behind the input there is nothing.
    let mut ip = 7;
    assert_eq!(read_length(&src, &mut ip, 15), Err(Errno::EUCLEAN));
    assert_eq!(ip, 7);
}
