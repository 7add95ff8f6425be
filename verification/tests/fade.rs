use skyscreen::effects::BinaryColor;
use skyscreen::fade::{burst_size, lit_pixels, read_bitmap, FadeError, FadeIn};
use skyscreen::raster::{pack_rows, unpack_rows};

/// A 1-bit BMP, bottom-up, with a black/white color table. `rows` are top
/// to bottom; `true` is white.
fn bmp(width: u32, rows: &[Vec<bool>]) -> Vec<u8> {
    let height = rows.len() as u32;
    let row_bytes = ((width + 31) / 32 * 4) as usize;
    let offset = 14 + 40 + 8;
    let size = offset + row_bytes * rows.len();
    let mut b = Vec::new();
    b.extend_from_slice(b"BM");
    b.extend_from_slice(&(size as u32).to_le_bytes());
    b.extend_from_slice(&[0, 0, 0, 0]);
    b.extend_from_slice(&(offset as u32).to_le_bytes());
    b.extend_from_slice(&40u32.to_le_bytes());
    b.extend_from_slice(&(width as i32).to_le_bytes());
    b.extend_from_slice(&(height as i32).to_le_bytes());
    b.extend_from_slice(&1u16.to_le_bytes());
    b.extend_from_slice(&1u16.to_le_bytes());
    b.extend_from_slice(&0u32.to_le_bytes());
    b.extend_from_slice(&((row_bytes * rows.len()) as u32).to_le_bytes());
    b.extend_from_slice(&2835u32.to_le_bytes());
    b.extend_from_slice(&2835u32.to_le_bytes());
    b.extend_from_slice(&2u32.to_le_bytes());
    b.extend_from_slice(&0u32.to_le_bytes());
    b.extend_from_slice(&[0, 0, 0, 0, 255, 255, 255, 0]);
    for row in rows.iter().rev() {
        let mut bytes = vec![0u8; row_bytes];
        for (x, &on) in row.iter().enumerate() {
            if on {
                bytes[x / 8] |= 0x80 >> (x % 8);
            }
        }
        b.extend_from_slice(&bytes);
    }
    b
}

fn heart_rows() -> Vec<Vec<bool>> {
    vec![
        vec![true, false, true, true, false, true, true, true, true, true],
        vec![false, false, false, true, true, false, false, true, true, true],
        vec![true, true, false, false, false, false, true, true, true, true],
    ]
}

#[test]
fn read_bitmap_gives_size_and_pixels() {
    let rows = heart_rows();
    let image = read_bitmap(&bmp(10, &rows)).expect("valid bmp");
    assert_eq!((image.width, image.height), (10, 3));
    assert_eq!(image.pixels.len(), 30);
    for (i, p) in image.pixels.iter().enumerate() {
        assert_eq!((p.x, p.y), ((i % 10) as i32, (i / 10) as i32));
        let on = rows[i / 10][i % 10];
        assert_eq!(p.color, if on { BinaryColor::On } else { BinaryColor::Off });
    }
    let lit = lit_pixels(&image.pixels);
    assert_eq!(lit, rows.concat());
}

#[test]
fn read_bitmap_refuses_other_bytes() {
    assert!(read_bitmap(b"not a bitmap").is_none());
    assert!(read_bitmap(&[]).is_none());
}

#[test]
fn fade_refuses_bad_input() {
    assert!(matches!(FadeIn::from_bmp(b"GIF89a", 10, 1), Err(FadeError::NotBmp)));
    let big = FadeIn::from_bmp(&bmp(10, &heart_rows()), u32::MAX, 1);
    assert!(matches!(big, Err(FadeError::TooManyBlackPixels)));
}

#[test]
fn fade_in_runs_to_the_image() {
    let rows = heart_rows();
    let data = bmp(10, &rows);
    let mut f = FadeIn::from_bmp(&data, 10, 1).expect("fade");
    assert_eq!((f.width(), f.height()), (10, 3));
    let heart = pack_rows(&rows.concat(), 10);
    // 14 black pixels and 6 padding bits per row pair... count the zeros of the packing
    let zeros: u32 = heart.iter().map(|b| b.count_zeros()).sum();
    assert_eq!(f.black_pixels(), zeros);
    assert_eq!(f.start_black_pixels(), zeros);
    assert_eq!(f.frame(), vec![0xff; heart.len()]);
    let mut frames = 0;
    let mut previous = f.frame();
    while !f.is_done() {
        let before = f.black_pixels();
        let burst = f.next_burst();
        assert_eq!(burst, burst_size(before, zeros, 10, 1));
        f.step();
        assert_eq!(f.black_pixels(), before - burst.min(before));
        let frame = f.frame();
        for (now, was) in frame.iter().zip(&previous) {
            assert_eq!(now & !was, 0, "a dark pixel turned light again");
        }
        for (now, h) in frame.iter().zip(&heart) {
            assert_eq!(now & h, *h, "an image pixel is missing");
        }
        previous = frame;
        frames += 1;
    }
    assert!(frames >= 1);
    assert_eq!(f.frame(), heart);
    assert_eq!(f.frame_pixels(), unpack_rows(&heart, 10));
    assert_eq!(&f.frame_pixels()[..10], &rows[0][..]);
}

#[test]
fn burst_sizes() {
    assert_eq!(burst_size(100, 100, 10, 1), 10);
    assert_eq!(burst_size(50, 100, 10, 1), 5);
    assert_eq!(burst_size(5, 100, 10, 1), 1);
    assert_eq!(burst_size(5, 100, 10, 0), 0);
    assert_eq!(burst_size(0, 100, 10, 3), 3);
}

use skyscreen::fade::sizes_fit;

#[test]
fn header_size_check() {
    let ok = bmp(10, &heart_rows());
    assert!(sizes_fit(&ok));
    assert!(sizes_fit(b"BM"));
    let mut many_colors = ok.clone();
    many_colors[46..50].copy_from_slice(&0x4000_0000u32.to_le_bytes());
    let mut wide = ok.clone();
    wide[18..22].copy_from_slice(&0x0800_0000u32.to_le_bytes());
    wide[28..30].copy_from_slice(&32u16.to_le_bytes());
    let fits_64 = usize::BITS == 64;
    assert_eq!(sizes_fit(&many_colors), fits_64);
    assert_eq!(sizes_fit(&wide), fits_64);
    if !fits_64 {
        assert!(read_bitmap(&many_colors).is_none());
        assert!(matches!(FadeIn::from_bmp(&wide, 10, 1), Err(FadeError::HeaderTooLarge)));
    }
}
