//! Row-wise packing of monochrome pixels into bytes and back.
//!
//! A row of `width` pixels takes `ceil(width / 8)` bytes. Within a byte the
//! first pixel sits in the most significant bit; unused low bits of the last
//! byte of a row are 0. A lit pixel is a 1 bit.

use vstd::prelude::*;

verus! {

/// Bit `t` of `byte`, counting from the most significant bit.
pub open spec fn msb_bit(byte: u8, t: int) -> bool {
    (byte >> ((7 - t) as u32)) & 1u8 == 1u8
}

/// Bytes taken by one row of `width` pixels.
pub open spec fn row_bytes(width: int) -> int {
    (width + 7) / 8
}

/// Bytes taken by `len` pixels cut into rows of `width`; a shorter last row
/// takes only the bytes it needs.
pub open spec fn packed_len(len: int, width: int) -> int {
    (len / width) * row_bytes(width) + (len % width + 7) / 8
}

/// The pixel that bit `t` (from the most significant) of byte `j` holds in
/// a packing of `pixels` with rows of `width`; bits past the end of a row
/// are 0.
pub open spec fn packed_pixel(pixels: Seq<bool>, width: int, j: int, t: int) -> bool {
    let col = 8 * (j % row_bytes(width)) + t;
    let idx = (j / row_bytes(width)) * width + col;
    col < width && idx < pixels.len() && pixels[idx]
}

/// The byte whose bits, from the most significant, are `b0` to `b7`.
pub open spec fn byte_of_bits(b0: bool, b1: bool, b2: bool, b3: bool, b4: bool, b5: bool, b6: bool, b7: bool) -> u8 {
    (if b0 { 0x80u8 } else { 0u8 }) | (if b1 { 0x40u8 } else { 0u8 }) | (if b2 { 0x20u8 } else { 0u8 })
        | (if b3 { 0x10u8 } else { 0u8 }) | (if b4 { 0x08u8 } else { 0u8 }) | (if b5 { 0x04u8 } else { 0u8 })
        | (if b6 { 0x02u8 } else { 0u8 }) | (if b7 { 0x01u8 } else { 0u8 })
}

/// Byte `j` of the packing of `pixels` with rows of `width`.
pub open spec fn packed_byte(pixels: Seq<bool>, width: int, j: int) -> u8 {
    byte_of_bits(
        packed_pixel(pixels, width, j, 0),
        packed_pixel(pixels, width, j, 1),
        packed_pixel(pixels, width, j, 2),
        packed_pixel(pixels, width, j, 3),
        packed_pixel(pixels, width, j, 4),
        packed_pixel(pixels, width, j, 5),
        packed_pixel(pixels, width, j, 6),
        packed_pixel(pixels, width, j, 7),
    )
}

/// The row-wise packing of `pixels` with rows of `width`.
pub open spec fn packed(pixels: Seq<bool>, width: int) -> Seq<u8> {
    Seq::new(packed_len(pixels.len() as int, width) as nat, |j: int| packed_byte(pixels, width, j))
}

/// Every byte is the byte of its own bits.
proof fn lemma_byte_is_its_bits(x: u8)
    ensures
        x == byte_of_bits(
            msb_bit(x, 0),
            msb_bit(x, 1),
            msb_bit(x, 2),
            msb_bit(x, 3),
            msb_bit(x, 4),
            msb_bit(x, 5),
            msb_bit(x, 6),
            msb_bit(x, 7),
        ),
{
    assert(x == (if (x >> 7u32) & 1u8 == 1u8 { 0x80u8 } else { 0u8 }) | (if (x >> 6u32) & 1u8 == 1u8 { 0x40u8 } else { 0u8 })
        | (if (x >> 5u32) & 1u8 == 1u8 { 0x20u8 } else { 0u8 }) | (if (x >> 4u32) & 1u8 == 1u8 { 0x10u8 } else { 0u8 })
        | (if (x >> 3u32) & 1u8 == 1u8 { 0x08u8 } else { 0u8 }) | (if (x >> 2u32) & 1u8 == 1u8 { 0x04u8 } else { 0u8 })
        | (if (x >> 1u32) & 1u8 == 1u8 { 0x02u8 } else { 0u8 }) | (if (x >> 0u32) & 1u8 == 1u8 { 0x01u8 } else { 0u8 }))
        by (bit_vector);
}

/// The bits of a byte built from bits are those bits.
proof fn lemma_bits_of_byte(b0: bool, b1: bool, b2: bool, b3: bool, b4: bool, b5: bool, b6: bool, b7: bool)
    ensures
        msb_bit(byte_of_bits(b0, b1, b2, b3, b4, b5, b6, b7), 0) == b0,
        msb_bit(byte_of_bits(b0, b1, b2, b3, b4, b5, b6, b7), 1) == b1,
        msb_bit(byte_of_bits(b0, b1, b2, b3, b4, b5, b6, b7), 2) == b2,
        msb_bit(byte_of_bits(b0, b1, b2, b3, b4, b5, b6, b7), 3) == b3,
        msb_bit(byte_of_bits(b0, b1, b2, b3, b4, b5, b6, b7), 4) == b4,
        msb_bit(byte_of_bits(b0, b1, b2, b3, b4, b5, b6, b7), 5) == b5,
        msb_bit(byte_of_bits(b0, b1, b2, b3, b4, b5, b6, b7), 6) == b6,
        msb_bit(byte_of_bits(b0, b1, b2, b3, b4, b5, b6, b7), 7) == b7,
{
    let x = byte_of_bits(b0, b1, b2, b3, b4, b5, b6, b7);
    assert(x == (if b0 { 0x80u8 } else { 0u8 }) | (if b1 { 0x40u8 } else { 0u8 }) | (if b2 { 0x20u8 } else { 0u8 })
        | (if b3 { 0x10u8 } else { 0u8 }) | (if b4 { 0x08u8 } else { 0u8 }) | (if b5 { 0x04u8 } else { 0u8 })
        | (if b6 { 0x02u8 } else { 0u8 }) | (if b7 { 0x01u8 } else { 0u8 }));
    assert({
        &&& ((x >> 7u32) & 1u8 == 1u8) == b0
        &&& ((x >> 6u32) & 1u8 == 1u8) == b1
        &&& ((x >> 5u32) & 1u8 == 1u8) == b2
        &&& ((x >> 4u32) & 1u8 == 1u8) == b3
        &&& ((x >> 3u32) & 1u8 == 1u8) == b4
        &&& ((x >> 2u32) & 1u8 == 1u8) == b5
        &&& ((x >> 1u32) & 1u8 == 1u8) == b6
        &&& ((x >> 0u32) & 1u8 == 1u8) == b7
    }) by (bit_vector)
        requires
            x == (if b0 { 0x80u8 } else { 0u8 }) | (if b1 { 0x40u8 } else { 0u8 }) | (if b2 { 0x20u8 } else { 0u8 })
                | (if b3 { 0x10u8 } else { 0u8 }) | (if b4 { 0x08u8 } else { 0u8 }) | (if b5 { 0x04u8 } else { 0u8 })
                | (if b6 { 0x02u8 } else { 0u8 }) | (if b7 { 0x01u8 } else { 0u8 });
}

/// Bit `t` of byte `j` of a packing holds the pixel that `packed_pixel` names.
pub proof fn lemma_packed_bit(pixels: Seq<bool>, width: int, j: int, t: int)
    requires
        0 <= t < 8,
    ensures
        msb_bit(packed_byte(pixels, width, j), t) == packed_pixel(pixels, width, j, t),
{
    lemma_bits_of_byte(
        packed_pixel(pixels, width, j, 0),
        packed_pixel(pixels, width, j, 1),
        packed_pixel(pixels, width, j, 2),
        packed_pixel(pixels, width, j, 3),
        packed_pixel(pixels, width, j, 4),
        packed_pixel(pixels, width, j, 5),
        packed_pixel(pixels, width, j, 6),
        packed_pixel(pixels, width, j, 7),
    );
}

/// The pixels held by `data` read as rows of `row_bytes(width)` bytes, each
/// giving its first `width` bits (a shorter last chunk gives all its bits).
pub open spec fn unpacked(data: Seq<u8>, width: int) -> Seq<bool> {
    let rb = row_bytes(width);
    Seq::new(
        ((data.len() as int / (rb as int)) * width + 8 * (data.len() as int % rb)) as nat,
        |i: int| msb_bit(data[(i / width) * rb + (i % width) / 8], (i % width) % 8),
    )
}

/// Bit `k` of `byte`, counting from the least significant bit.
pub open spec fn lsb_bit(byte: u8, k: int) -> bool {
    (byte >> (k as u32)) & 1u8 == 1u8
}

proof fn lemma_shift_in(r: u8, x: u8, m: u32, k: u32)
    by (bit_vector)
    requires
        x <= 1,
        m < 8,
        k < m,
        r >> m == 0,
    ensures
        ((r << 1u32) | x) >> ((m + 1) as u32) == 0,
        ((r << 1u32) | x) & 1u8 == x,
        (((r << 1u32) | x) >> ((k + 1) as u32)) & 1u8 == (r >> k) & 1u8,
{
}

proof fn lemma_shift_in_first(r: u8, x: u8, m: u32)
    by (bit_vector)
    requires
        x <= 1,
        m < 8,
        r >> m == 0,
    ensures
        ((r << 1u32) | x) >> ((m + 1) as u32) == 0,
        ((r << 1u32) | x) & 1u8 == x,
{
}

proof fn lemma_shift_up(r: u8, m: u32, t: u32)
    by (bit_vector)
    requires
        1 <= m <= 8,
        t < 8,
        r >> m == 0,
    ensures
        ((r << ((8 - m) as u32)) >> ((7 - t) as u32)) & 1u8 == if t < m {
            (r >> ((m - 1 - t) as u32)) & 1u8
        } else {
            0u8
        },
{
}

/// Packs `pixels[s..e]`, at most eight of them, into one byte, the first
/// pixel in the most significant bit.
fn pack_chunk(pixels: &[bool], s: usize, e: usize) -> (byte: u8)
    requires
        s < e <= pixels@.len(),
        e - s <= 8,
    ensures
        forall|t: int| 0 <= t < 8 ==> #[trigger] msb_bit(byte, t) == (t < e - s && pixels@[s + t]),
{
    let mut r: u8 = 0;
    let mut q: usize = s;
    assert(r >> 0u32 == 0) by (bit_vector)
        requires r == 0u8;
    while q < e
        invariant
            s <= q <= e,
            e - s <= 8,
            e <= pixels@.len(),
            r >> ((q - s) as u32) == 0,
            forall|i: int|
                0 <= i < q - s ==> #[trigger] lsb_bit(r, q - s - 1 - i) == pixels@[s + i],
        decreases e - q,
    {
        let x: u8 = if pixels[q] { 1 } else { 0 };
        let ghost old_r = r;
        let ghost m: u32 = (q - s) as u32;
        r = (r << 1u32) | x;
        proof {
            lemma_shift_in_first(old_r, x, m);
            assert forall|i: int| 0 <= i < q + 1 - s implies #[trigger] lsb_bit(r, q + 1 - s - 1 - i)
                == pixels@[s + i] by {
                if i < m {
                    let k = (m - 1 - i) as u32;
                    lemma_shift_in(old_r, x, m, k);
                    assert(lsb_bit(old_r, q - s - 1 - i) == pixels@[s + i]);
                    assert(q - s - 1 - i == k as int);
                    assert(q + 1 - s - 1 - i == (k + 1) as int);
                    assert(lsb_bit(r, (k + 1) as int) == lsb_bit(old_r, k as int));
                } else {
                    assert(i == m);
                    assert(q + 1 - s - 1 - i == 0);
                    assert(r >> 0u32 == r) by (bit_vector);
                    assert(lsb_bit(r, 0) == (r & 1u8 == 1u8));
                }
            }
        }
        q += 1;
    }
    let m: u32 = (e - s) as u32;
    let byte = r << (8 - m);
    proof {
        assert forall|t: int| 0 <= t < 8 implies #[trigger] msb_bit(byte, t) == (t < e - s && pixels@[s + t]) by {
            let tt = t as u32;
            lemma_shift_up(r, m, tt);
            assert(msb_bit(byte, t) == (((r << ((8 - m) as u32)) >> ((7 - tt) as u32)) & 1u8 == 1u8));
            if t < m {
                assert(lsb_bit(r, q - s - 1 - t) == pixels@[s + t]);
                assert(q - s - 1 - t == (m - 1 - tt) as int);
            }
        }
    }
    byte
}


proof fn lemma_row_split(r: int, d: int, c: int)
    requires
        d > 0,
        0 <= c < d,
    ensures
        (r * d + c) / d == r,
        (r * d + c) % d == c,
{
    vstd::arithmetic::div_mod::lemma_fundamental_div_mod_converse(r * d + c, d, r, c);
}

/// The bytes per row for `width` pixels, `ceil(width / 8)`.
fn bytes_per_row(width: usize) -> (rb: usize)
    ensures
        rb == row_bytes(width as int),
{
    if width % 8 == 0 {
        width / 8
    } else {
        width / 8 + 1
    }
}

/// Cuts `pixels` into rows of `width` (the last row may be shorter) and
/// packs each row on its own into bytes, eight pixels to a byte, the first
/// pixel of a byte in its most significant bit.
pub fn pack_rows(pixels: &[bool], width: usize) -> (data: Vec<u8>)
    requires
        width > 0,
    ensures
        data@ == packed(pixels@, width as int),
{
    let len = pixels.len();
    let rb = bytes_per_row(width);
    let ghost w = width as int;
    let mut data: Vec<u8> = Vec::new();
    let mut row_start: usize = 0;
    let ghost mut r: int = 0;
    proof {
        lemma_row_split(0, w, 0);
    }
    while row_start < len
        invariant
            len == pixels@.len(),
            w == width as int,
            width > 0,
            rb == row_bytes(w),
            0 <= r,
            row_start <= len,
            row_start < len ==> row_start == r * w,
            data@.len() == packed_len(row_start as int, w),
            forall|j: int, t: int|
                0 <= j < data@.len() && 0 <= t < 8 ==> #[trigger] msb_bit(data@[j], t)
                    == packed_pixel(pixels@, w, j, t),
        decreases len - row_start,
    {
        let row_end = if len - row_start <= width { len } else { row_start + width };
        proof {
            lemma_row_split(r, w, 0);
        }
        let ghost base = data@.len() as int;
        assert(base == r * rb);
        let mut s: usize = row_start;
        let ghost mut c: int = 0;
        while s < row_end
            invariant
                len == pixels@.len(),
                w == width as int,
                width > 0,
                rb == row_bytes(w),
                0 <= r,
                row_start == r * w,
                row_start < row_end <= len,
                row_end == if len - row_start <= width { len as int } else { row_start + width },
                base == r * rb,
                row_start <= s <= row_end,
                0 <= c,
                s < row_end ==> s == row_start + 8 * c,
                c == (s - row_start + 7) / 8,
                data@.len() == base + c,
                forall|j: int, t: int|
                    0 <= j < data@.len() && 0 <= t < 8 ==> #[trigger] msb_bit(data@[j], t)
                        == packed_pixel(pixels@, w, j, t),
            decreases row_end - s,
        {
            let e = if row_end - s <= 8 { row_end } else { s + 8 };
            let byte = pack_chunk(pixels, s, e);
            proof {
                assert(8 * c < w);
                assert(c < rb);
                lemma_row_split(r, rb as int, c);
                let j = base + c;
                assert forall|t: int| 0 <= t < 8 implies #[trigger] msb_bit(byte, t) == packed_pixel(pixels@, w, j, t) by {
                    assert(j / (rb as int) == r);
                    assert(j % (rb as int) == c);
                    assert((j / (rb as int)) * w + 8 * (j % (rb as int)) + t == s + t);
                }
            }
            data.push(byte);
            proof {
                c = c + 1;
            }
            s = e;
        }
        proof {
            if row_end == len && len - row_start < width {
                lemma_row_split(r, w, len - row_start);
            } else {
                lemma_row_split(r + 1, w, 0);
                assert((r + 1) * w == r * w + w) by (nonlinear_arith);
                assert((r + 1) * rb == r * rb + rb) by (nonlinear_arith);
            }
            r = r + 1;
        }
        row_start = row_end;
    }
    proof {
        assert forall|j: int| 0 <= j < data@.len() implies #[trigger] data@[j] == packed_byte(pixels@, w, j) by {
            lemma_byte_is_its_bits(data@[j]);
            assert(msb_bit(data@[j], 0) == packed_pixel(pixels@, w, j, 0));
            assert(msb_bit(data@[j], 1) == packed_pixel(pixels@, w, j, 1));
            assert(msb_bit(data@[j], 2) == packed_pixel(pixels@, w, j, 2));
            assert(msb_bit(data@[j], 3) == packed_pixel(pixels@, w, j, 3));
            assert(msb_bit(data@[j], 4) == packed_pixel(pixels@, w, j, 4));
            assert(msb_bit(data@[j], 5) == packed_pixel(pixels@, w, j, 5));
            assert(msb_bit(data@[j], 6) == packed_pixel(pixels@, w, j, 6));
            assert(msb_bit(data@[j], 7) == packed_pixel(pixels@, w, j, 7));
        }
        assert(data@ =~= packed(pixels@, w));
    }
    data
}

/// Reads `data` back as rows: each `ceil(width / 8)` bytes give one row of
/// `width` pixels, the most significant bit of a byte first; a shorter last
/// chunk gives all of its bits.
pub fn unpack_rows(data: &[u8], width: usize) -> (pixels: Vec<bool>)
    requires
        width > 0,
    ensures
        pixels@ == unpacked(data@, width as int),
{
    let len = data.len();
    let rb = bytes_per_row(width);
    let ghost w = width as int;
    let mut pixels: Vec<bool> = Vec::new();
    let mut row_start: usize = 0;
    let ghost mut r: int = 0;
    while row_start < len
        invariant
            len == data@.len(),
            w == width as int,
            width > 0,
            rb == row_bytes(w),
            rb > 0,
            0 <= r,
            row_start <= len,
            row_start < len ==> row_start == r * rb && pixels@.len() == r * w,
            row_start == len ==> pixels@.len() == unpacked(data@, w).len(),
            forall|i: int| 0 <= i < pixels@.len() ==> #[trigger] pixels@[i] == unpacked(data@, w)[i],
        decreases len - row_start,
    {
        let row_len = if len - row_start < rb { len - row_start } else { rb };
        let row_bits = if row_len == rb { width } else { 8 * row_len };
        let ghost base = pixels@.len() as int;
        let mut k: usize = 0;
        while k < row_bits
            invariant
                len == data@.len(),
                w == width as int,
                width > 0,
                rb == row_bytes(w),
                0 <= r,
                row_start == r * rb,
                base == r * w,
                row_start + row_len <= len,
                0 < row_len <= rb,
                row_len == if len - row_start < rb { (len - row_start) as int } else { rb as int },
                row_bits == if row_len == rb { w } else { 8 * row_len },
                row_bits <= w,
                k <= row_bits,
                pixels@.len() == base + k,
                forall|i: int| 0 <= i < pixels@.len() ==> #[trigger] pixels@[i] == unpacked(data@, w)[i],
            decreases row_bits - k,
        {
            let byte = data[row_start + k / 8];
            let bit = (byte >> (7 - (k % 8) as u32)) & 1u8 == 1u8;
            proof {
                let i = base + k;
                lemma_row_split(r, w, k as int);
                assert(i / w == r);
                assert(i % w == k);
                assert(unpacked(data@, w).len() > i) by {
                    if row_len == rb {
                        lemma_row_split(r + 1, rb as int, 0);
                        assert(row_start + rb <= len);
                        assert((r + 1) * rb == r * rb + rb) by (nonlinear_arith);
                        assert(data@.len() as int / (rb as int) >= r + 1) by (nonlinear_arith)
                            requires data@.len() as int >= (r + 1) * rb, rb > 0;
                        assert((data@.len() as int / (rb as int)) * w >= (r + 1) * w) by (nonlinear_arith)
                            requires data@.len() as int / (rb as int) >= r + 1, w > 0;
                        assert((r + 1) * w == r * w + w) by (nonlinear_arith);
                    } else {
                        lemma_row_split(r, rb as int, row_len as int);
                    }
                }
            }
            pixels.push(bit);
            k += 1;
        }
        proof {
            if row_len == rb {
                assert((r + 1) * rb == r * rb + rb) by (nonlinear_arith);
                assert((r + 1) * w == r * w + w) by (nonlinear_arith);
                if row_start + rb == len {
                    lemma_row_split(r + 1, rb as int, 0);
                }
            } else {
                lemma_row_split(r, rb as int, row_len as int);
            }
            r = r + 1;
        }
        row_start = row_start + row_len;
    }
    assert(pixels@ =~= unpacked(data@, w));
    pixels
}


/// Packing whole rows and reading them back gives the same pixels: when
/// `pixels` fills rows of `width` exactly, unpacking its packing returns it.
pub proof fn lemma_unpack_pack_roundtrip(pixels: Seq<bool>, width: int)
    requires
        width > 0,
        pixels.len() as int % width == 0,
    ensures
        unpacked(packed(pixels, width), width) == pixels,
{
    let data = packed(pixels, width);
    let w = width;
    let rb = row_bytes(w);
    let len = pixels.len() as int;
    let h = len / w;
    vstd::arithmetic::div_mod::lemma_fundamental_div_mod(len, w);
    assert(len == w * h);
    assert(len == h * w) by (nonlinear_arith)
        requires len == w * h;
    assert(h >= 0) by (nonlinear_arith)
        requires len == h * w, w > 0, len >= 0;
    assert(data.len() == h * rb);
    lemma_row_split(h, rb, 0);
    let u = unpacked(data, w);
    assert(u.len() == len);
    assert forall|i: int| 0 <= i < len implies #[trigger] u[i] == pixels[i] by {
        let r = i / w;
        let col = i % w;
        vstd::arithmetic::div_mod::lemma_fundamental_div_mod(i, w);
        assert(i == r * w + col) by (nonlinear_arith)
            requires i == w * r + col;
        assert(0 <= col < w);
        assert(0 <= r);
        assert(r < h) by (nonlinear_arith)
            requires i == r * w + col, 0 <= col, i < len, len == h * w, w > 0;
        let c = col / 8;
        let t = col % 8;
        assert(c < rb);
        let j = r * rb + c;
        lemma_row_split(r, rb, c);
        assert(j < data.len()) by (nonlinear_arith)
            requires j == r * rb + c, c < rb, r < h, data.len() == h * rb, rb > 0;
        assert(j >= 0) by (nonlinear_arith)
            requires j == r * rb + c, c >= 0, r >= 0, rb > 0;
        lemma_packed_bit(pixels, w, j, t);
        assert(msb_bit(data[j], t) == packed_pixel(pixels, w, j, t));
        assert(8 * c + t == col);
    }
    assert(u =~= pixels);
}

} // verus!
