use rand_core::impls::{fill_via_chunks, fill_via_u32_chunks, fill_via_u64_chunks, Observable};

#[test]
fn test_fill_via_u32_chunks() {
    let src_orig = [1u32, 2, 3];

    let src = src_orig;
    let mut dst = [0u8; 11];
    assert_eq!(fill_via_chunks(&src, &mut dst), (3, 11));
    assert_eq!(dst, [1, 0, 0, 0, 2, 0, 0, 0, 3, 0, 0]);

    let src = src_orig;
    let mut dst = [0u8; 13];
    assert_eq!(fill_via_chunks(&src, &mut dst), (3, 12));
    assert_eq!(dst, [1, 0, 0, 0, 2, 0, 0, 0, 3, 0, 0, 0, 0]);

    let src = src_orig;
    let mut dst = [0u8; 5];
    assert_eq!(fill_via_chunks(&src, &mut dst), (2, 5));
    assert_eq!(dst, [1, 0, 0, 0, 2]);
}

#[test]
fn test_fill_via_u64_chunks() {
    let src_orig = [1u64, 2];

    let src = src_orig;
    let mut dst = [0u8; 11];
    assert_eq!(fill_via_chunks(&src, &mut dst), (2, 11));
    assert_eq!(dst, [1, 0, 0, 0, 0, 0, 0, 0, 2, 0, 0]);

    let src = src_orig;
    let mut dst = [0u8; 17];
    assert_eq!(fill_via_chunks(&src, &mut dst), (2, 16));
    assert_eq!(dst, [1, 0, 0, 0, 0, 0, 0, 0, 2, 0, 0, 0, 0, 0, 0, 0, 0]);

    let src = src_orig;
    let mut dst = [0u8; 5];
    assert_eq!(fill_via_chunks(&src, &mut dst), (1, 5));
    assert_eq!(dst, [1, 0, 0, 0, 0]);
}

#[test]
fn three_u32_words_into_eleven_bytes() {
    let src = [1u32, 2, 3];
    let mut dst = [0u8; 11];
    assert_eq!(fill_via_chunks(&src, &mut dst), (3, 11));
    assert_eq!(dst, [1, 0, 0, 0, 2, 0, 0, 0, 3, 0, 0]);
}

#[test]
fn three_u32_words_into_thirteen_bytes() {
    let src = [1u32, 2, 3];
    let mut dst = [0u8; 13];
    assert_eq!(fill_via_chunks(&src, &mut dst), (3, 12));
    assert_eq!(dst, [1, 0, 0, 0, 2, 0, 0, 0, 3, 0, 0, 0, 0]);
}

#[test]
fn two_u64_words_into_five_bytes() {
    let src = [1u64, 2];
    let mut dst = [0u8; 5];
    assert_eq!(fill_via_chunks(&src, &mut dst), (1, 5));
    assert_eq!(dst, [1, 0, 0, 0, 0]);
}

#[test]
fn bytes_come_least_significant_first() {
    let mut dst = [0u8; 4];
    assert_eq!(fill_via_chunks(&[0x0403_0201u32], &mut dst), (1, 4));
    assert_eq!(dst, [1, 2, 3, 4]);

    let mut dst = [0u8; 8];
    assert_eq!(fill_via_chunks(&[0x0807_0605_0403_0201u64], &mut dst), (1, 8));
    assert_eq!(dst, [1, 2, 3, 4, 5, 6, 7, 8]);

    let mut dst = [0u8; 3];
    assert_eq!(fill_via_chunks(&[0xddcc_bbaau32], &mut dst), (1, 3));
    assert_eq!(dst, [0xaa, 0xbb, 0xcc]);

    let mut dst = [0u8; 7];
    assert_eq!(fill_via_chunks(&[0x8877_6655_4433_2211u64], &mut dst), (1, 7));
    assert_eq!(dst, [0x11, 0x22, 0x33, 0x44, 0x55, 0x66, 0x77]);
}

#[test]
fn word_capability_of_u32_and_u64() {
    assert_eq!(<u32 as Observable>::size(), 4);
    assert_eq!(<u64 as Observable>::size(), 8);
    let w: u32 = 0xdead_beef;
    assert_eq!(w.le_byte(0), 0xef);
    assert_eq!(w.le_byte(1), 0xbe);
    assert_eq!(w.le_byte(2), 0xad);
    assert_eq!(w.le_byte(3), 0xde);
    let w: u64 = 0x0123_4567_89ab_cdef;
    let bytes: Vec<u8> = (0..8).map(|i| w.le_byte(i)).collect();
    assert_eq!(bytes, vec![0xef, 0xcd, 0xab, 0x89, 0x67, 0x45, 0x23, 0x01]);
    assert_eq!(u32::MAX.le_byte(3), 0xff);
    assert_eq!(u64::MAX.le_byte(7), 0xff);
    assert_eq!(0u64.le_byte(7), 0);
}

#[test]
fn nothing_to_read_or_nowhere_to_write() {
    let none: [u32; 0] = [];
    let mut dst = [7u8; 9];
    assert_eq!(fill_via_chunks(&none, &mut dst), (0, 0));
    assert_eq!(dst, [7u8; 9]);

    let mut empty: [u8; 0] = [];
    assert_eq!(fill_via_chunks(&[1u32, 2], &mut empty), (0, 0));
    assert_eq!(fill_via_chunks(&[1u64, 2], &mut empty), (0, 0));
    assert_eq!(fill_via_chunks(&none, &mut empty), (0, 0));
}

#[test]
fn source_shorter_than_destination() {
    let mut dst = [9u8; 10];
    assert_eq!(fill_via_chunks(&[0x0102_0304u32], &mut dst), (1, 4));
    assert_eq!(dst, [4, 3, 2, 1, 9, 9, 9, 9, 9, 9]);

    let mut dst = [9u8; 20];
    assert_eq!(fill_via_chunks(&[1u64, 2], &mut dst), (2, 16));
    assert_eq!(&dst[16..], &[9, 9, 9, 9]);
}

#[test]
fn exact_fit_leaves_no_partial_word() {
    let mut dst = [0u8; 8];
    assert_eq!(fill_via_chunks(&[1u32, 2, 3], &mut dst), (2, 8));
    assert_eq!(dst, [1, 0, 0, 0, 2, 0, 0, 0]);

    let mut dst = [0u8; 8];
    assert_eq!(fill_via_chunks(&[1u32, 2], &mut dst), (2, 8));
    assert_eq!(dst, [1, 0, 0, 0, 2, 0, 0, 0]);
}

fn expected_counts(n: usize, l: usize, w: usize) -> (usize, usize) {
    let full = if n < l / w { n } else { l / w };
    if full < n && l % w != 0 {
        (full + 1, full * w + l % w)
    } else {
        (full, full * w)
    }
}

#[test]
fn counts_follow_the_formula() {
    for n in 0..6usize {
        for l in 0..50usize {
            let src32: Vec<u32> = (0..n).map(|i| 0x1111_1111 * (i as u32 + 1)).collect();
            let mut dst = vec![0u8; l];
            assert_eq!(fill_via_chunks(&src32, &mut dst), expected_counts(n, l, 4));

            let src64: Vec<u64> = (0..n).map(|i| 0x0101_0101_0101_0101 * (i as u64 + 1)).collect();
            let mut dst = vec![0u8; l];
            assert_eq!(fill_via_chunks(&src64, &mut dst), expected_counts(n, l, 8));
        }
    }
    assert_eq!(expected_counts(3, 11, 4), (3, 11));
    assert_eq!(expected_counts(3, 13, 4), (3, 12));
    assert_eq!(expected_counts(2, 5, 8), (1, 5));
}

#[test]
fn written_bytes_are_the_stream_of_forms() {
    for n in 0..5usize {
        for l in 0..40usize {
            let src: Vec<u32> = (0..n).map(|i| 0x0a0b_0c0d + 0x1010_1010 * i as u32).collect();
            let stream: Vec<u8> = src.iter().flat_map(|w| w.to_le_bytes()).collect();
            let mut dst = vec![0x5au8; l];
            let (_, filled) = fill_via_chunks(&src, &mut dst);
            assert_eq!(filled, stream.len().min(l));
            assert_eq!(&dst[..filled], &stream[..filled]);

            let src: Vec<u64> = (0..n).map(|i| 0x0102_0304_0506_0708 + 0x1010 * i as u64).collect();
            let stream: Vec<u8> = src.iter().flat_map(|w| w.to_le_bytes()).collect();
            let mut dst = vec![0x5au8; l];
            let (_, filled) = fill_via_chunks(&src, &mut dst);
            assert_eq!(filled, stream.len().min(l));
            assert_eq!(&dst[..filled], &stream[..filled]);
        }
    }
}

#[test]
fn same_words_and_length_give_same_bytes() {
    let src = [0xdead_beefu32, 0x0bad_f00d, 0x1234_5678];
    for l in 0..16usize {
        let mut a = vec![0x00u8; l];
        let mut b = vec![0xffu8; l];
        let ra = fill_via_chunks(&src, &mut a);
        let rb = fill_via_chunks(&src, &mut b);
        assert_eq!(ra, rb);
        assert_eq!(&a[..ra.1], &b[..rb.1]);
        let mut again = vec![0x00u8; l];
        assert_eq!(fill_via_chunks(&src, &mut again), ra);
        assert_eq!(a, again);
    }
    let mut dst = [0u8; 12];
    fill_via_chunks(&src, &mut dst);
    assert_eq!(dst, [0xef, 0xbe, 0xad, 0xde, 0x0d, 0xf0, 0xad, 0x0b, 0x78, 0x56, 0x34, 0x12]);
}

#[test]
fn bytes_behind_the_filled_ones_are_untouched() {
    let mut dst = [0xeeu8; 13];
    assert_eq!(fill_via_chunks(&[1u32, 2, 3], &mut dst), (3, 12));
    assert_eq!(dst, [1, 0, 0, 0, 2, 0, 0, 0, 3, 0, 0, 0, 0xee]);

    let mut dst = [0xeeu8; 17];
    assert_eq!(fill_via_chunks(&[1u64], &mut dst), (1, 8));
    assert_eq!(&dst[..8], &[1, 0, 0, 0, 0, 0, 0, 0]);
    assert_eq!(&dst[8..], &[0xee; 9]);

    for n in 0..4usize {
        for l in 0..20usize {
            let src: Vec<u32> = vec![0x0403_0201; n];
            let before: Vec<u8> = (0..l).map(|i| 0x80 + i as u8).collect();
            let mut dst = before.clone();
            let (_, filled) = fill_via_chunks(&src, &mut dst);
            assert_eq!(&dst[filled..], &before[filled..]);
        }
    }
}

#[test]
fn fixed_width_entry_points_only_read_the_source() {
    let mut src = [1u32, 2, 3];
    let mut dst = [0u8; 11];
    assert_eq!(fill_via_u32_chunks(&mut src, &mut dst), (3, 11));
    assert_eq!(dst, [1, 0, 0, 0, 2, 0, 0, 0, 3, 0, 0]);
    assert_eq!(src, [1, 2, 3]);

    let mut src = [1u32, 2, 3];
    let mut dst = [0u8; 13];
    assert_eq!(fill_via_u32_chunks(&mut src, &mut dst), (3, 12));
    assert_eq!(src, [1, 2, 3]);

    let mut src = [1u64, 2];
    let mut dst = [0u8; 11];
    assert_eq!(fill_via_u64_chunks(&mut src, &mut dst), (2, 11));
    assert_eq!(dst, [1, 0, 0, 0, 0, 0, 0, 0, 2, 0, 0]);
    assert_eq!(src, [1, 2]);

    let mut src = [1u64, 2];
    let mut dst = [0u8; 5];
    assert_eq!(fill_via_u64_chunks(&mut src, &mut dst), (1, 5));
    assert_eq!(dst, [1, 0, 0, 0, 0]);
    assert_eq!(src, [1, 2]);
}
