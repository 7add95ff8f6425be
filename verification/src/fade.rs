//! The heart fade-in: a bitmap appears on a blank screen a few random black
//! pixels at a time, fast at first and slower towards the end.

use vstd::prelude::*;
use crate::bits::{
    bit_at,
    bit_seq,
    count_of,
    count_zero_bits,
    flip_nth_bit,
    flips_nth,
    lemma_flips_nth_unique,
    overlay_binary,
    lemma_count_of_update,
};
use crate::effects::{BinaryColor, Pixel};
use crate::raster::{packed, pack_rows, unpack_rows, unpacked};

verus! {

/// A decoded bitmap: its size and its pixels, from the top left corner row
/// by row.
pub struct Bitmap {
    pub width: u32,
    pub height: u32,
    pub pixels: Vec<Pixel>,
}

/// The size and pixels that `tinybmp` reads from the bytes of a BMP file
/// (with monochrome colors), or `None` where it refuses the bytes.
pub uninterp spec fn bmp_image(bytes: Seq<u8>) -> Option<(u32, u32, Seq<Pixel>)>;

/// The little-endian 16-bit number at byte `i` of `bytes`.
pub open spec fn le_u16_at(bytes: Seq<u8>, i: int) -> int {
    bytes[i] + 256 * bytes[i + 1]
}

/// The little-endian 32-bit number at byte `i` of `bytes`.
pub open spec fn le_u32_at(bytes: Seq<u8>, i: int) -> int {
    bytes[i] + 256 * bytes[i + 1] + 65536 * bytes[i + 2] + 16777216 * bytes[i + 3]
}

/// The sizes in a BMP header fit this machine's `usize` where `tinybmp`
/// computes with them: the color table's length in bytes (the color count
/// at byte 46, times 4) and, for an uncompressed image of positive width,
/// the bits of a row plus 31 (the width at byte 18 times the bits per pixel
/// at byte 28). Bytes too short to hold these fields are refused by
/// `tinybmp` before it reads them.
pub open spec fn bmp_sizes_fit(bytes: Seq<u8>) -> bool {
    bytes.len() < 50 || {
        let width = le_u32_at(bytes, 18);
        let bpp = le_u16_at(bytes, 28);
        let compression = le_u32_at(bytes, 30);
        &&& le_u32_at(bytes, 46) * 4 <= usize::MAX
        &&& (width >= 0x8000_0000 || compression == 1 || compression == 2 || width * bpp + 31
            <= usize::MAX)
    }
}

fn le_u32_of(bytes: &[u8], i: usize) -> (v: u64)
    requires
        i + 4 <= bytes@.len(),
    ensures
        v == le_u32_at(bytes@, i as int),
{
    bytes[i] as u64 + 256 * (bytes[i + 1] as u64) + 65536 * (bytes[i + 2] as u64) + 16777216 * (
    bytes[i + 3] as u64)
}

/// Whether the sizes in the BMP header of `bytes` fit this machine's
/// `usize` (see `bmp_sizes_fit`).
pub fn sizes_fit(bytes: &[u8]) -> (fit: bool)
    ensures
        fit == bmp_sizes_fit(bytes@),
{
    if bytes.len() < 50 {
        return true;
    }
    let width = le_u32_of(bytes, 18);
    let bpp = bytes[28] as u64 + 256 * (bytes[29] as u64);
    let compression = le_u32_of(bytes, 30);
    let colors = le_u32_of(bytes, 46);
    let max = usize::MAX as u64;
    assert(width * bpp + 31 <= 0xffff_ffff * 0xffff + 31) by (nonlinear_arith)
        requires width <= 0xffff_ffff, bpp <= 0xffff;
    colors * 4 <= max && (width >= 0x8000_0000 || compression == 1 || compression == 2 || width * bpp
        + 31 <= max)
}

/// Parses `bytes` with `tinybmp::Bmp::<BinaryColor>::from_slice` and reads
/// the image's size and its pixel iterator into a `Bitmap`. The contract
/// names the outcome as a function of the bytes; what a BMP file decodes to
/// is not stated. `requires` leaves out the headers whose sizes overflow
/// `usize` inside `tinybmp` (possible on 32-bit machines), where it panics.
#[verifier::external_body]
fn decode_bmp(bytes: &[u8]) -> (image: Option<Bitmap>)
    requires
        bmp_sizes_fit(bytes@),
    ensures
        image matches Some(b) ==> bmp_image(bytes@) == Some((b.width, b.height, b.pixels@)),
        image is None <==> bmp_image(bytes@) is None,
{
    let bmp = tinybmp::Bmp::<embedded_graphics::pixelcolor::BinaryColor>::from_slice(bytes).ok()?;
    let size = embedded_graphics::geometry::OriginDimensions::size(&bmp);
    let pixels = bmp.pixels().map(|p| Pixel { x: p.0.x, y: p.0.y, color: match p.1 {
        embedded_graphics::pixelcolor::BinaryColor::On => BinaryColor::On,
        embedded_graphics::pixelcolor::BinaryColor::Off => BinaryColor::Off,
    } }).collect();
    Some(Bitmap { width: size.width, height: size.height, pixels })
}

/// Reads a monochrome BMP file; `None` where `tinybmp` refuses it, and
/// where the sizes in its header do not fit this machine's `usize`.
pub fn read_bitmap(bytes: &[u8]) -> (image: Option<Bitmap>)
    ensures
        !bmp_sizes_fit(bytes@) ==> image is None,
        bmp_sizes_fit(bytes@) ==> (image matches Some(b) ==> bmp_image(bytes@) == Some(
            (b.width, b.height, b.pixels@),
        )),
        bmp_sizes_fit(bytes@) ==> (image is None <==> bmp_image(bytes@) is None),
{
    if !sizes_fit(bytes) {
        return None;
    }
    decode_bmp(bytes)
}

/// Which of `pixels` are lit, in order.
pub open spec fn lit(pixels: Seq<Pixel>) -> Seq<bool> {
    pixels.map_values(|p: Pixel| p.color == BinaryColor::On)
}

/// Which of `pixels` are lit, in order.
pub fn lit_pixels(pixels: &[Pixel]) -> (out: Vec<bool>)
    ensures
        out@ == lit(pixels@),
{
    let mut out: Vec<bool> = Vec::new();
    let mut i: usize = 0;
    while i < pixels.len()
        invariant
            i <= pixels@.len(),
            out@ == lit(pixels@.take(i as int)),
        decreases pixels@.len() - i,
    {
        let on = match pixels[i].color {
            BinaryColor::On => true,
            BinaryColor::Off => false,
        };
        out.push(on);
        assert(out@ =~= lit(pixels@.take(i + 1)));
        i += 1;
    }
    assert(pixels@.take(pixels@.len() as int) =~= pixels@);
    out
}

/// The packed picture shown while the mask is `mask`: the image where the
/// mask has a 1, white where it has a 0.
pub open spec fn frame_of(heart: Seq<u8>, mask: Seq<u8>) -> Seq<u8> {
    Seq::new(heart.len(), |i: int| heart[i] | !mask[i])
}

/// How many black pixels turn white in one frame: the share of the
/// remaining black pixels scaled to `max_fade`, but at least `min_fade`.
pub open spec fn burst_of(black: u32, start: u32, max_fade: u32, min_fade: u32) -> int {
    let scaled = (black * max_fade) / (start as int);
    if scaled >= min_fade { scaled } else { min_fade as int }
}

/// How many black pixels turn white in one frame, given how many are left
/// (`black`) and how many there were (`start`).
pub fn burst_size(black: u32, start: u32, max_fade: u32, min_fade: u32) -> (burst: u32)
    requires
        start > 0,
        black * max_fade <= u32::MAX,
    ensures
        burst == burst_of(black, start, max_fade, min_fade),
{
    let scaled = (black * max_fade) / start;
    if scaled >= min_fade {
        scaled
    } else {
        min_fade
    }
}

/// Why a fade-in could not be set up.
#[derive(Clone, Copy, Debug, PartialEq, Eq, Structural)]
pub enum FadeError {
    /// The bytes are no BMP file that can be read.
    NotBmp,
    /// The sizes in the BMP header overflow this machine's `usize`.
    HeaderTooLarge,
    /// The image is zero pixels wide.
    ZeroWidth,
    /// The count of black pixels, or that count times the fastest fade, does
    /// not fit in a `u32`.
    TooManyBlackPixels,
}

/// The fade-in of a monochrome image.
///
/// The image is kept packed (see `raster`); so is a mask that starts equal to
/// it. Each frame turns random 0 bits of the mask into 1 bits; a frame shows
/// the image where the mask has a 1 and white where it has a 0.
pub struct FadeIn {
    width: u32,
    height: u32,
    heart: Vec<u8>,
    mask: Vec<u8>,
    black: u32,
    start: u32,
    max_fade: u32,
    min_fade: u32,
}

/// Draws for `black` black pixels: the `j`-th draw is below the number of
/// black pixels left at its turn, `black - j`.
pub open spec fn valid_draws(black: u32, draws: Seq<u32>) -> bool {
    &&& draws.len() <= black
    &&& forall|j: int| 0 <= j < draws.len() ==> #[trigger] draws[j] < black - j
}

/// `mask` with its `n`-th 0 bit set (see `flips_nth`).
pub open spec fn set_nth_zero(mask: Seq<u8>, n: u32) -> Seq<u8> {
    choose|after: Seq<u8>| flips_nth(mask, false, n as int, after)
}

/// `mask` after setting, in turn, the 0 bit that each draw names among the
/// 0 bits left.
pub open spec fn set_zeros(mask: Seq<u8>, draws: Seq<u32>) -> Seq<u8>
    decreases draws.len(),
{
    if draws.len() == 0 {
        mask
    } else {
        set_nth_zero(set_zeros(mask, draws.drop_last()), draws.last())
    }
}

/// The random bit generator of the current thread.
#[verifier::external_type_specification]
#[verifier::external_body]
pub struct ExThreadRng(rand::rngs::ThreadRng);

/// `rand::rng()`: the random generator of the current thread.
#[verifier::external_body]
fn thread_rng() -> rand::rngs::ThreadRng {
    rand::rng()
}

/// `Rng::random_range(0..bound)`, a random number below `bound`; the
/// contract states only its range, as the number is random.
#[verifier::external_body]
fn random_below(rng: &mut rand::rngs::ThreadRng, bound: u32) -> (r: u32)
    requires
        bound > 0,
    ensures
        r < bound,
{
    rand::Rng::random_range(rng, 0..bound)
}

impl FadeIn {
    /// The packed image.
    pub closed spec fn heart(&self) -> Seq<u8> {
        self.heart@
    }

    /// The packed mask.
    pub closed spec fn mask(&self) -> Seq<u8> {
        self.mask@
    }

    /// The black pixels still to appear.
    pub closed spec fn black(&self) -> u32 {
        self.black
    }

    /// The black pixels there were at the start.
    pub closed spec fn start(&self) -> u32 {
        self.start
    }

    pub closed spec fn max_fade(&self) -> u32 {
        self.max_fade
    }

    pub closed spec fn min_fade(&self) -> u32 {
        self.min_fade
    }

    pub closed spec fn image_width(&self) -> u32 {
        self.width
    }

    pub closed spec fn image_height(&self) -> u32 {
        self.height
    }

    /// The fade is consistent: the count of black pixels left is the count
    /// of 0 bits of the mask, the mask has a 1 wherever the image has one,
    /// and scaling the count never overflows.
    pub closed spec fn wf(&self) -> bool {
        &&& self.width > 0
        &&& self.mask@.len() == self.heart@.len()
        &&& self.black == count_of(bit_seq(self.mask@), false)
        &&& self.black <= self.start
        &&& self.start * self.max_fade <= u32::MAX
        &&& forall|k: int|
            0 <= k < bit_seq(self.heart@).len() && #[trigger] bit_seq(self.heart@)[k] ==> bit_seq(
                self.mask@,
            )[k]
    }

    /// Sets up the fade-in of the BMP file `bytes`.
    pub fn from_bmp(bytes: &[u8], max_fade: u32, min_fade: u32) -> (r: Result<FadeIn, FadeError>)
        ensures
            !bmp_sizes_fit(bytes@) ==> r == Err::<FadeIn, FadeError>(FadeError::HeaderTooLarge),
            bmp_sizes_fit(bytes@) && bmp_image(bytes@) is None ==> r == Err::<FadeIn, FadeError>(
                FadeError::NotBmp,
            ),
            bmp_sizes_fit(bytes@) ==> (bmp_image(bytes@) matches Some((w, h, px)) ==> {
                let heart = packed(lit(px), w as int);
                let zeros = count_of(bit_seq(heart), false);
                if w == 0 {
                    r == Err::<FadeIn, FadeError>(FadeError::ZeroWidth)
                } else if zeros <= u32::MAX && zeros * max_fade <= u32::MAX {
                    r matches Ok(f) && f.wf() && f.heart() == heart && f.mask() == heart
                        && f.black() == zeros && f.start() == zeros && f.image_width() == w
                        && f.image_height() == h && f.max_fade() == max_fade && f.min_fade() == min_fade
                } else {
                    r == Err::<FadeIn, FadeError>(FadeError::TooManyBlackPixels)
                }
            }),
    {
        if !sizes_fit(bytes) {
            return Err(FadeError::HeaderTooLarge);
        }
        let image = match decode_bmp(bytes) {
            Some(image) => image,
            None => return Err(FadeError::NotBmp),
        };
        if image.width == 0 {
            return Err(FadeError::ZeroWidth);
        }
        let colors = lit_pixels(image.pixels.as_slice());
        let heart = pack_rows(colors.as_slice(), image.width as usize);
        let zeros = match count_zero_bits(heart.as_slice()) {
            Some(z) => z,
            None => return Err(FadeError::TooManyBlackPixels),
        };
        if zeros.checked_mul(max_fade).is_none() {
            return Err(FadeError::TooManyBlackPixels);
        }
        let mask = heart.clone();
        assert(mask@ =~= heart@);
        Ok(FadeIn {
            width: image.width,
            height: image.height,
            heart,
            mask,
            black: zeros,
            start: zeros,
            max_fade,
            min_fade,
        })
    }

    pub fn width(&self) -> (w: u32)
        ensures
            w == self.image_width(),
    {
        self.width
    }

    pub fn height(&self) -> (h: u32)
        ensures
            h == self.image_height(),
    {
        self.height
    }

    /// How many black pixels are still to appear.
    pub fn black_pixels(&self) -> (n: u32)
        ensures
            n == self.black(),
    {
        self.black
    }

    /// How many black pixels there were at the start.
    pub fn start_black_pixels(&self) -> (n: u32)
        ensures
            n == self.start(),
    {
        self.start
    }

    /// Whether every black pixel has appeared.
    pub fn is_done(&self) -> (done: bool)
        ensures
            done == (self.black() == 0),
    {
        self.black == 0
    }

    /// The size of the next burst.
    pub fn next_burst(&self) -> (burst: u32)
        requires
            self.wf(),
            self.black() > 0,
        ensures
            burst == burst_of(self.black(), self.start(), self.max_fade(), self.min_fade()),
    {
        proof {
            assert(self.black * self.max_fade <= self.start * self.max_fade) by (nonlinear_arith)
                requires self.black <= self.start;
        }
        burst_size(self.black, self.start, self.max_fade, self.min_fade)
    }

    /// Turns black pixels white in the mask, one per entry of `draws`: each
    /// entry names the n-th remaining 0 bit of the mask at its turn.
    pub fn apply_draws(&mut self, draws: &[u32])
        requires
            old(self).wf(),
            valid_draws(old(self).black(), draws@),
        ensures
            final(self).wf(),
            final(self).mask() == set_zeros(old(self).mask(), draws@),
            final(self).black() == old(self).black() - draws@.len(),
            final(self).heart() == old(self).heart(),
            final(self).start() == old(self).start(),
            final(self).max_fade() == old(self).max_fade(),
            final(self).min_fade() == old(self).min_fade(),
            final(self).image_width() == old(self).image_width(),
            final(self).image_height() == old(self).image_height(),
            forall|k: int|
                0 <= k < bit_seq(old(self).mask()).len() && #[trigger] bit_seq(old(self).mask())[k]
                    ==> bit_seq(final(self).mask())[k],
    {
        let ghost black0 = self.black;
        let ghost mask0 = self.mask@;
        let mut j: usize = 0;
        assert(draws@.take(0) =~= Seq::<u32>::empty());
        while j < draws.len()
            invariant
                self.wf(),
                valid_draws(black0, draws@),
                j <= draws@.len(),
                self.black == black0 - j,
                self.mask@ == set_zeros(mask0, draws@.take(j as int)),
                self.heart@ == old(self).heart@,
                self.start == old(self).start,
                self.max_fade == old(self).max_fade,
                self.min_fade == old(self).min_fade,
                self.width == old(self).width,
                self.height == old(self).height,
                bit_seq(self.mask@).len() == bit_seq(mask0).len(),
                forall|k: int|
                    0 <= k < bit_seq(mask0).len() && #[trigger] bit_seq(mask0)[k] ==> bit_seq(self.mask@)[k],
            decreases draws@.len() - j,
        {
            let bit_index = draws[j];
            assert(bit_index == draws@[j as int]);
            let ghost before = self.mask@;
            flip_nth_bit(false, bit_index as usize, self.mask.as_mut_slice());
            proof {
                let bs = bit_seq(before);
                assert(bit_index < count_of(bs, false));
                let k = choose|k: int|
                    0 <= k < bs.len() && #[trigger] bs[k] == false && count_of(bs.take(k), false) == bit_index
                        && bit_seq(self.mask@) == bs.update(k, true);
                lemma_count_of_update(bs, false, k);
                assert(bit_seq(self.mask@) == bs.update(k, true));
                let chosen = set_nth_zero(before, bit_index);
                assert(flips_nth(before, false, bit_index as int, chosen));
                lemma_flips_nth_unique(before, false, bit_index as int, self.mask@, chosen);
                assert(draws@.take(j + 1).drop_last() =~= draws@.take(j as int));
            }
            self.black = self.black - 1;
            j = j + 1;
        }
        assert(draws@.take(draws@.len() as int) =~= draws@);
    }

    /// One frame of the fade: a burst of random black pixels turns white in
    /// the mask, as many as `burst_of` says but no more than are left.
    pub fn step(&mut self)
        requires
            old(self).wf(),
            old(self).black() > 0,
        ensures
            final(self).wf(),
            final(self).black() == old(self).black() - if burst_of(
                old(self).black(),
                old(self).start(),
                old(self).max_fade(),
                old(self).min_fade(),
            ) <= old(self).black() {
                burst_of(old(self).black(), old(self).start(), old(self).max_fade(), old(self).min_fade())
            } else {
                old(self).black() as int
            },
            final(self).heart() == old(self).heart(),
            final(self).start() == old(self).start(),
            final(self).max_fade() == old(self).max_fade(),
            final(self).min_fade() == old(self).min_fade(),
            final(self).image_width() == old(self).image_width(),
            final(self).image_height() == old(self).image_height(),
            forall|k: int|
                0 <= k < bit_seq(old(self).mask()).len() && #[trigger] bit_seq(old(self).mask())[k]
                    ==> bit_seq(final(self).mask())[k],
            final(self).mask().len() == final(self).heart().len(),
            forall|k: int|
                0 <= k < 8 * final(self).heart().len() ==> (#[trigger] bit_at(
                    frame_of(final(self).heart(), final(self).mask()),
                    k,
                ) ==> bit_at(frame_of(old(self).heart(), old(self).mask()), k)),
            forall|k: int|
                0 <= k < 8 * final(self).heart().len() && #[trigger] bit_at(final(self).heart(), k)
                    ==> bit_at(frame_of(final(self).heart(), final(self).mask()), k),
            exists|draws: Seq<u32>|
                #[trigger] valid_draws(old(self).black(), draws) && draws.len() == old(self).black()
                    - final(self).black() && final(self).mask() == set_zeros(old(self).mask(), draws),
    {
        let burst = self.next_burst();
        let count = if burst <= self.black {
            burst
        } else {
            self.black
        };
        let ghost mask0 = self.mask@;
        let mut draws: Vec<u32> = Vec::new();
        let mut j: u32 = 0;
        while j < count
            invariant
                count <= self.black,
                j <= count,
                draws@.len() == j,
                forall|i: int| 0 <= i < j ==> #[trigger] draws@[i] < self.black - i,
            decreases count - j,
        {
            let mut rng = thread_rng();
            let bit_index = random_below(&mut rng, self.black - j);
            draws.push(bit_index);
            j = j + 1;
        }
        self.apply_draws(draws.as_slice());
        proof {
            assert(valid_draws(old(self).black(), draws@));
            assert forall|k: int| 0 <= k < 8 * self.heart@.len() implies (#[trigger] bit_at(
                frame_of(self.heart@, self.mask@),
                k,
            ) ==> bit_at(frame_of(old(self).heart@, old(self).mask@), k)) && (bit_at(self.heart@, k)
                ==> bit_at(frame_of(self.heart@, self.mask@), k)) by {
                assert(bit_seq(mask0)[k] == bit_at(mask0, k));
                assert(bit_seq(self.mask@)[k] == bit_at(self.mask@, k));
                lemma_frame_only_darkens(self.heart@, mask0, self.mask@, k);
            }
        }
    }

    /// The packed picture of the current frame: the image where the mask
    /// has a 1, white where it has a 0.
    pub fn frame(&self) -> (data: Vec<u8>)
        requires
            self.wf(),
        ensures
            data@ == frame_of(self.heart(), self.mask()),
            forall|k: int|
                0 <= k < 8 * self.heart().len() && #[trigger] bit_at(self.heart(), k) ==> bit_at(
                    data@,
                    k,
                ),
    {
        let mut data = self.heart.clone();
        assert(data@ =~= self.heart@);
        overlay_binary(data.as_mut_slice(), self.mask.as_slice());
        assert(data@ =~= frame_of(self.heart(), self.mask()));
        proof {
            assert forall|k: int| 0 <= k < 8 * self.heart().len() && #[trigger] bit_at(self.heart(), k)
                implies bit_at(data@, k) by {
                lemma_frame_bit(self.heart@, self.mask@, k);
            }
        }
        data
    }

    /// The pixels of the current frame, row by row; a lit pixel is `true`.
    pub fn frame_pixels(&self) -> (pixels: Vec<bool>)
        requires
            self.wf(),
        ensures
            pixels@ == unpacked(frame_of(self.heart(), self.mask()), self.image_width() as int),
    {
        let data = self.frame();
        let pixels = unpack_rows(data.as_slice(), self.width as usize);
        pixels
    }
}


/// A pixel of the frame is lit where the image is lit or the mask is 0.
pub proof fn lemma_frame_bit(heart: Seq<u8>, mask: Seq<u8>, k: int)
    requires
        heart.len() == mask.len(),
        0 <= k < 8 * heart.len(),
    ensures
        bit_at(frame_of(heart, mask), k) == (bit_at(heart, k) || !bit_at(mask, k)),
{
    let q = k / 8;
    let t = (k % 8) as u32;
    let h = heart[q];
    let m = mask[q];
    assert(frame_of(heart, mask)[q] == h | !m);
    assert(t < 8);
    assert((((h | !m) >> t) & 1u8 == 1u8) == (((h >> t) & 1u8 == 1u8) || !((m >> t) & 1u8 == 1u8)))
        by (bit_vector)
        requires t < 8;
}

proof fn lemma_all_ones_byte(x: u8)
    requires
        (x >> 0u32) & 1u8 == 1u8,
        (x >> 1u32) & 1u8 == 1u8,
        (x >> 2u32) & 1u8 == 1u8,
        (x >> 3u32) & 1u8 == 1u8,
        (x >> 4u32) & 1u8 == 1u8,
        (x >> 5u32) & 1u8 == 1u8,
        (x >> 6u32) & 1u8 == 1u8,
        (x >> 7u32) & 1u8 == 1u8,
    ensures
        x == 0xffu8,
{
    assert(x == 0xffu8) by (bit_vector)
        requires
            (x >> 0u32) & 1u8 == 1u8,
            (x >> 1u32) & 1u8 == 1u8,
            (x >> 2u32) & 1u8 == 1u8,
            (x >> 3u32) & 1u8 == 1u8,
            (x >> 4u32) & 1u8 == 1u8,
            (x >> 5u32) & 1u8 == 1u8,
            (x >> 6u32) & 1u8 == 1u8,
            (x >> 7u32) & 1u8 == 1u8;
}

proof fn lemma_no_zero_left(bs: Seq<bool>, k: int)
    requires
        count_of(bs, false) == 0,
        0 <= k < bs.len(),
    ensures
        bs[k],
    decreases bs.len(),
{
    if k < bs.len() - 1 {
        lemma_no_zero_left(bs.drop_last(), k);
    }
}

/// The first frame of a fade is blank: with the mask equal to the image,
/// every byte of the frame is `0xff`.
pub proof fn lemma_first_frame_blank(heart: Seq<u8>)
    ensures
        frame_of(heart, heart) == Seq::new(heart.len(), |i: int| 0xffu8),
{
    assert forall|i: int| 0 <= i < heart.len() implies #[trigger] frame_of(heart, heart)[i] == 0xffu8 by {
        let h = heart[i];
        assert(h | !h == 0xffu8) by (bit_vector);
    }
    assert(frame_of(heart, heart) =~= Seq::new(heart.len(), |i: int| 0xffu8));
}

/// Once every black pixel has appeared, the frame is exactly the image.
pub proof fn lemma_done_frame_is_image(f: FadeIn)
    requires
        f.wf(),
        f.black() == 0,
    ensures
        frame_of(f.heart(), f.mask()) == f.heart(),
{
    let mask = f.mask();
    let heart = f.heart();
    assert forall|i: int| 0 <= i < heart.len() implies #[trigger] frame_of(heart, mask)[i] == heart[i] by {
        assert forall|t: int| 0 <= t < 8 implies #[trigger] bit_at(mask, 8 * i + t) by {
            assert((8 * i + t) / 8 == i && (8 * i + t) % 8 == t) by (nonlinear_arith)
                requires 0 <= t < 8, 0 <= i;
            assert(8 * i + t < 8 * mask.len()) by (nonlinear_arith)
                requires 0 <= t < 8, 0 <= i < mask.len();
            lemma_no_zero_left(bit_seq(mask), 8 * i + t);
        }
        let m = mask[i];
        assert(bit_at(mask, 8 * i + 0) && bit_at(mask, 8 * i + 1) && bit_at(mask, 8 * i + 2) && bit_at(mask, 8 * i + 3)
            && bit_at(mask, 8 * i + 4) && bit_at(mask, 8 * i + 5) && bit_at(mask, 8 * i + 6) && bit_at(mask, 8 * i + 7));
        lemma_all_ones_byte(m);
        let h = heart[i];
        assert(h | !0xffu8 == h) by (bit_vector);
    }
    assert(frame_of(heart, mask) =~= heart);
}

/// As the mask gains 1 bits, the frame only loses lit pixels, and never
/// one that the image has lit: pixels that have appeared stay.
pub proof fn lemma_frame_only_darkens(heart: Seq<u8>, before: Seq<u8>, after: Seq<u8>, k: int)
    requires
        before.len() == heart.len(),
        after.len() == heart.len(),
        0 <= k < 8 * heart.len(),
        bit_at(before, k) ==> bit_at(after, k),
    ensures
        bit_at(frame_of(heart, after), k) ==> bit_at(frame_of(heart, before), k),
        bit_at(heart, k) ==> bit_at(frame_of(heart, after), k),
{
    lemma_frame_bit(heart, before, k);
    lemma_frame_bit(heart, after, k);
}

} // verus!
