use skyscreen::bits::{count_zero_bits, flip_nth_bit, overlay_binary};
use skyscreen::raster::{pack_rows, unpack_rows};

#[test]
fn flip_first_zero_bit() {
    let mut a = [0u8];
    flip_nth_bit(false, 0, &mut a);
    assert_eq!(a, [0b0000_0001]);
}

#[test]
fn flip_zero_bit_in_second_byte() {
    let mut a = [0xffu8, 0x00];
    flip_nth_bit(false, 3, &mut a);
    assert_eq!(a, [0xff, 0b0000_1000]);
}

#[test]
fn flip_one_bit_clears_it() {
    let mut a = [0b1010_0000u8];
    flip_nth_bit(true, 1, &mut a);
    assert_eq!(a, [0b0010_0000]);
}

#[test]
fn flip_skips_bits_of_other_value() {
    let mut a = [0b0000_0101u8];
    flip_nth_bit(false, 1, &mut a);
    assert_eq!(a, [0b0000_1101]);
}

#[test]
fn flip_past_the_last_match_changes_nothing() {
    let mut a = [0xfeu8, 0xff];
    flip_nth_bit(false, 1, &mut a);
    assert_eq!(a, [0xfe, 0xff]);
    let mut e: [u8; 0] = [];
    flip_nth_bit(true, 0, &mut e);
    assert_eq!(e, []);
}

#[test]
fn flipping_every_zero_fills_the_bytes() {
    let mut a = [0b1001_0110u8, 0x0f];
    let zeros = count_zero_bits(&a).unwrap();
    assert_eq!(zeros, 8);
    for _ in 0..zeros {
        flip_nth_bit(false, 0, &mut a);
    }
    assert_eq!(a, [0xff, 0xff]);
    assert_eq!(count_zero_bits(&a), Some(0));
}

#[test]
fn overlay_marks_zero_bits_of_over() {
    let mut under = [0x00u8, 0x0f, 0x33];
    overlay_binary(&mut under, &[0xf0, 0xff]);
    assert_eq!(under, [0x0f, 0x0f, 0x33]);
}

#[test]
fn overlay_of_a_picture_with_itself_is_blank() {
    let heart = [0b1100_0011u8, 0x5a];
    let mut under = heart;
    overlay_binary(&mut under, &heart);
    assert_eq!(under, [0xff, 0xff]);
}

#[test]
fn overlay_with_full_mask_keeps_picture() {
    let mut under = [0b1100_0011u8, 0x5a];
    overlay_binary(&mut under, &[0xff, 0xff]);
    assert_eq!(under, [0b1100_0011, 0x5a]);
}

#[test]
fn count_zero_bits_counts() {
    assert_eq!(count_zero_bits(&[]), Some(0));
    assert_eq!(count_zero_bits(&[0x00, 0xff, 0x0f]), Some(12));
}

#[test]
fn pack_three_wide_rows() {
    let px = [true, false, true, false, true, true];
    assert_eq!(pack_rows(&px, 3), vec![0b1010_0000, 0b0110_0000]);
}

#[test]
fn pack_ten_wide_row_takes_two_bytes() {
    let mut px = vec![false; 10];
    px[0] = true;
    px[8] = true;
    px[9] = true;
    assert_eq!(pack_rows(&px, 10), vec![0b1000_0000, 0b1100_0000]);
}

#[test]
fn pack_short_last_row() {
    let px = [true; 11];
    assert_eq!(pack_rows(&px, 8), vec![0xff, 0b1110_0000]);
}

#[test]
fn pack_nothing() {
    assert_eq!(pack_rows(&[], 5), Vec::<u8>::new());
}

#[test]
fn unpack_takes_width_bits_per_row() {
    let data = [0b1010_0000u8, 0b0110_0000];
    assert_eq!(unpack_rows(&data, 3), vec![true, false, true, false, true, true]);
}

#[test]
fn unpack_short_last_chunk_gives_all_its_bits() {
    let data = [0xffu8, 0xc0, 0x80];
    let px = unpack_rows(&data, 10);
    assert_eq!(px.len(), 18);
    assert_eq!(&px[..10], &[true; 10]);
    assert_eq!(&px[10..], &[true, false, false, false, false, false, false, false]);
}

#[test]
fn pack_then_unpack_roundtrip() {
    let px: Vec<bool> = (0..60).map(|i| (i * 7 + i / 3) % 5 < 2).collect();
    for w in [1usize, 3, 5, 10, 12, 20, 30, 60] {
        assert_eq!(unpack_rows(&pack_rows(&px, w), w), px, "width {w}");
    }
}

#[test]
fn flip_roundtrip_restores_bytes() {
    let a0 = [0b1011_0110u8, 0b0101_1100];
    for n in 0..count_zero_bits(&a0).unwrap() as usize {
        let mut a = a0;
        flip_nth_bit(false, n, &mut a);
        // the flipped position and the 1 bits before it
        let bits = |b: &[u8]| (0..16).map(|k| (b[k / 8] >> (k % 8)) & 1 == 1).collect::<Vec<_>>();
        let before = bits(&a0);
        let after = bits(&a);
        let k0 = (0..16).find(|&k| before[k] != after[k]).unwrap();
        let m = before[..k0].iter().filter(|&&b| b).count();
        flip_nth_bit(true, m, &mut a);
        assert_eq!(a, a0, "n = {n}");
    }
}
