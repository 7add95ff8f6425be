//! Per-pixel drawing effects.
//!
//! A drawing effect sits in front of a display: every pixel drawn through it
//! is either dropped or handed on, possibly changed, to the display behind.

use vstd::prelude::*;

verus! {

/// The two colors of a monochrome display.
#[derive(Clone, Copy, Debug, PartialEq, Eq, Structural)]
pub enum BinaryColor {
    Off,
    On,
}

/// A colored point on a display.
#[derive(Clone, Copy, Debug, PartialEq, Eq, Structural)]
pub struct Pixel {
    pub x: i32,
    pub y: i32,
    pub color: BinaryColor,
}

/// The colors that `Off` and `On` turn into.
#[derive(Clone, Copy, Debug, PartialEq, Eq, Structural)]
pub struct ColorMapping {
    pub off: BinaryColor,
    pub on: BinaryColor,
}

/// What a filter-map display does to each pixel.
#[derive(Clone, Copy, Debug, PartialEq, Eq, Structural)]
pub enum Effect {
    /// Drops the pixels of the given color.
    Alpha(BinaryColor),
    /// Recolors every pixel.
    ColorMap(ColorMapping),
    /// Mirrors every pixel: `x` becomes `width - x`.
    Flip(i32),
    /// Keeps a pixel when the hash of the seed and its position is at most
    /// the target.
    Hash { seed: u64, target: u64 },
}

/// The hash that the standard library's default hasher gives after being
/// fed `seed`, `x` and `y` in this order.
pub uninterp spec fn default_hash(seed: u64, x: i32, y: i32) -> u64;

/// Hashes `(seed, x, y)` with `std::hash::DefaultHasher` through
/// `BuildHasher::hash_one`, which writes `seed` with `write_u64` and `x`, `y`
/// with `write_i32` before `finish`. The contract names the result: the same
/// three values give the same hash; its value is not stated.
#[verifier::external_body]
fn hash_position(seed: u64, x: i32, y: i32) -> (h: u64)
    ensures
        h == default_hash(seed, x, y),
{
    std::hash::BuildHasher::hash_one(
        &std::hash::BuildHasherDefault::<std::hash::DefaultHasher>::default(),
        (seed, x, y),
    )
}

/// Whether a pixel whose position hashed to `hash` is kept under `target`.
pub fn hash_admits(hash: u64, target: u64) -> (keep: bool)
    ensures
        keep == (hash <= target),
{
    hash <= target
}

/// `width - x` does not leave the range of `i32`.
pub open spec fn flip_fits(width: i32, x: i32) -> bool {
    i32::MIN <= width - x <= i32::MAX
}

/// An effect can be applied to `p` without arithmetic overflow.
pub open spec fn applicable(effect: Effect, p: Pixel) -> bool {
    match effect {
        Effect::Flip(w) => flip_fits(w, p.x),
        _ => true,
    }
}

/// What `effect` makes of the pixel `p`: `None` drops it.
pub open spec fn effect_on(effect: Effect, p: Pixel) -> Option<Pixel> {
    match effect {
        Effect::Alpha(c) => if p.color == c {
            None
        } else {
            Some(p)
        },
        Effect::ColorMap(m) => Some(
            Pixel {
                color: match p.color {
                    BinaryColor::Off => m.off,
                    BinaryColor::On => m.on,
                },
                ..p
            },
        ),
        Effect::Flip(w) => Some(Pixel { x: (w - p.x) as i32, ..p }),
        Effect::Hash { seed, target } => if default_hash(seed, p.x, p.y) <= target {
            Some(p)
        } else {
            None
        },
    }
}

/// The pixels that reach the display behind `effect` when `pixels` are
/// drawn, in order.
pub open spec fn effect_on_all(effect: Effect, pixels: Seq<Pixel>) -> Seq<Pixel> {
    pixels.filter_map(|p: Pixel| effect_on(effect, p))
}

/// A display adapter that applies an effect to every pixel drawn through it.
pub struct FilterMapDisplay {
    mapping: Effect,
}

impl FilterMapDisplay {
    /// The effect this display applies.
    pub closed spec fn effect(&self) -> Effect {
        self.mapping
    }

    pub fn new(mapping: Effect) -> (d: Self)
        ensures
            d.effect() == mapping,
    {
        FilterMapDisplay { mapping }
    }

    /// The effect this display applies.
    pub fn mapping(&self) -> (e: Effect)
        ensures
            e == self.effect(),
    {
        self.mapping
    }

    /// What becomes of one pixel drawn through this display.
    pub fn map_pixel(&self, p: Pixel) -> (q: Option<Pixel>)
        requires
            applicable(self.effect(), p),
        ensures
            q == effect_on(self.effect(), p),
    {
        match self.mapping {
            Effect::Alpha(c) => {
                if p.color == c {
                    None
                } else {
                    Some(p)
                }
            },
            Effect::ColorMap(m) => {
                let color = match p.color {
                    BinaryColor::Off => m.off,
                    BinaryColor::On => m.on,
                };
                Some(Pixel { x: p.x, y: p.y, color })
            },
            Effect::Flip(w) => Some(Pixel { x: w - p.x, y: p.y, color: p.color }),
            Effect::Hash { seed, target } => {
                if hash_admits(hash_position(seed, p.x, p.y), target) {
                    Some(p)
                } else {
                    None
                }
            },
        }
    }

    /// The pixels that reach the display behind this one when `pixels` are
    /// drawn through it, in the order they are drawn.
    pub fn draw_iter(&self, pixels: &[Pixel]) -> (out: Vec<Pixel>)
        requires
            forall|i: int| 0 <= i < pixels@.len() ==> applicable(self.effect(), #[trigger] pixels@[i]),
        ensures
            out@ == effect_on_all(self.effect(), pixels@),
    {
        let mut out: Vec<Pixel> = Vec::new();
        let mut i: usize = 0;
        assert(pixels@.take(0) =~= Seq::<Pixel>::empty());
        while i < pixels.len()
            invariant
                i <= pixels@.len(),
                forall|j: int| 0 <= j < pixels@.len() ==> applicable(self.effect(), #[trigger] pixels@[j]),
                out@ == effect_on_all(self.effect(), pixels@.take(i as int)),
            decreases pixels@.len() - i,
        {
            let p = pixels[i];
            let q = self.map_pixel(p);
            assert(pixels@.take(i + 1).drop_last() =~= pixels@.take(i as int));
            match q {
                Some(q) => {
                    out.push(q);
                    assert(out@ =~= effect_on_all(self.effect(), pixels@.take(i as int)) + seq![q]);
                },
                None => {},
            }
            i += 1;
        }
        assert(pixels@.take(pixels@.len() as int) =~= pixels@);
        out
    }
}

/// Drops the pixels of color `color_filter`, letting the display behind show
/// through.
pub fn make_alpha_display(color_filter: BinaryColor) -> (d: FilterMapDisplay)
    ensures
        d.effect() == Effect::Alpha(color_filter),
{
    FilterMapDisplay::new(Effect::Alpha(color_filter))
}

/// Recolors every pixel through `mapping`.
pub fn make_color_map_display(mapping: ColorMapping) -> (d: FilterMapDisplay)
    ensures
        d.effect() == Effect::ColorMap(mapping),
{
    FilterMapDisplay::new(Effect::ColorMap(mapping))
}

/// Mirrors every pixel left to right on a display `width` pixels wide:
/// `x` becomes `width - x`, the width read as an `i32`.
pub fn make_flip_display(width: u32) -> (d: FilterMapDisplay)
    ensures
        d.effect() == Effect::Flip(width as i32),
{
    FilterMapDisplay::new(Effect::Flip(width as i32))
}

/// Keeps exactly the pixels whose position, hashed together with `seed`,
/// gives at most `target`: a larger target keeps more of them.
pub fn make_hash_display(seed: u64, target: u64) -> (d: FilterMapDisplay)
    ensures
        d.effect() == (Effect::Hash { seed, target }),
{
    FilterMapDisplay::new(Effect::Hash { seed, target })
}

/// A display adapter that hands every pixel on unchanged.
pub struct NoopDisplay {}

impl NoopDisplay {
    pub fn new() -> (d: Self) {
        NoopDisplay {  }
    }

    /// The pixels that reach the display behind: all of them, unchanged.
    pub fn draw_iter(&self, pixels: &[Pixel]) -> (out: Vec<Pixel>)
        ensures
            out@ == pixels@,
    {
        let mut out: Vec<Pixel> = Vec::new();
        let mut i: usize = 0;
        while i < pixels.len()
            invariant
                i <= pixels@.len(),
                out@ == pixels@.take(i as int),
            decreases pixels@.len() - i,
        {
            out.push(pixels[i]);
            assert(out@ =~= pixels@.take(i + 1));
            i += 1;
        }
        assert(out@ =~= pixels@);
        out
    }
}


/// The effect only ever drops pixels; those it keeps pass unchanged.
pub open spec fn only_filters(effect: Effect) -> bool {
    effect is Alpha || effect is Hash
}

/// Drawing one more pixel hands on what the effect makes of it, after the
/// rest.
pub proof fn lemma_effect_on_all_push(effect: Effect, pixels: Seq<Pixel>, p: Pixel)
    ensures
        effect_on_all(effect, pixels.push(p)) == match effect_on(effect, p) {
            Some(q) => effect_on_all(effect, pixels).push(q),
            None => effect_on_all(effect, pixels),
        },
{
    assert(pixels.push(p).drop_last() =~= pixels);
    assert(pixels.push(p).last() == p);
    match effect_on(effect, p) {
        Some(q) => {
            assert(effect_on_all(effect, pixels) + seq![q] =~= effect_on_all(effect, pixels).push(q));
        },
        None => {},
    }
}

/// Mirroring a pixel twice on the same display gives it back.
pub proof fn lemma_flip_twice(width: i32, p: Pixel)
    requires
        flip_fits(width, p.x),
    ensures
        applicable(Effect::Flip(width), effect_on(Effect::Flip(width), p).unwrap()),
        effect_on(Effect::Flip(width), effect_on(Effect::Flip(width), p).unwrap()) == Some(p),
{
}

/// A display that only drops pixels hands on exactly the pixels it keeps,
/// unchanged and in order.
pub proof fn lemma_filter_display_keeps_order(effect: Effect, pixels: Seq<Pixel>)
    requires
        only_filters(effect),
    ensures
        effect_on_all(effect, pixels) == pixels.filter(|p: Pixel| effect_on(effect, p) is Some),
    decreases pixels.len(),
{
    reveal(Seq::filter);
    if pixels.len() > 0 {
        lemma_filter_display_keeps_order(effect, pixels.drop_last());
        assert(pixels.drop_last().push(pixels.last()) =~= pixels);
        lemma_effect_on_all_push(effect, pixels.drop_last(), pixels.last());
    }
}

/// Two displays that only drop pixels give the same picture stacked in
/// either order.
pub proof fn lemma_filters_commute(a: Effect, b: Effect, pixels: Seq<Pixel>)
    requires
        only_filters(a),
        only_filters(b),
    ensures
        effect_on_all(a, effect_on_all(b, pixels)) == effect_on_all(b, effect_on_all(a, pixels)),
    decreases pixels.len(),
{
    if pixels.len() > 0 {
        let rest = pixels.drop_last();
        let p = pixels.last();
        lemma_filters_commute(a, b, rest);
        assert(rest.push(p) =~= pixels);
        lemma_effect_on_all_push(a, rest, p);
        lemma_effect_on_all_push(b, rest, p);
        lemma_effect_on_all_push(a, effect_on_all(b, rest), p);
        lemma_effect_on_all_push(b, effect_on_all(a, rest), p);
    } else {
        assert(effect_on_all(b, pixels) =~= Seq::<Pixel>::empty());
        assert(effect_on_all(a, pixels) =~= Seq::<Pixel>::empty());
    }
}

/// Raising the target of a hash display keeps every pixel it kept before.
pub proof fn lemma_hash_target_monotone(seed: u64, low: u64, high: u64, p: Pixel)
    requires
        low <= high,
    ensures
        effect_on(Effect::Hash { seed, target: low }, p) is Some ==> effect_on(
            Effect::Hash { seed, target: high },
            p,
        ) == Some(p),
{
}

/// Drawing the same pixels through hash displays with the same seed, the
/// lower target hands on exactly those pixels of the higher target's output
/// whose position hashes to at most the lower target: a subsequence of it,
/// chosen by position alone, with the pixels unchanged.
pub proof fn lemma_hash_target_subsequence(seed: u64, low: u64, high: u64, pixels: Seq<Pixel>)
    requires
        low <= high,
    ensures
        effect_on_all(Effect::Hash { seed, target: low }, pixels) == effect_on_all(
            Effect::Hash { seed, target: high },
            pixels,
        ).filter(|p: Pixel| default_hash(seed, p.x, p.y) <= low),
    decreases pixels.len(),
{
    reveal(Seq::filter);
    let lo = Effect::Hash { seed, target: low };
    let hi = Effect::Hash { seed, target: high };
    if pixels.len() > 0 {
        let rest = pixels.drop_last();
        let p = pixels.last();
        lemma_hash_target_subsequence(seed, low, high, rest);
        assert(rest.push(p) =~= pixels);
        lemma_effect_on_all_push(lo, rest, p);
        lemma_effect_on_all_push(hi, rest, p);
        let out = effect_on_all(hi, rest);
        if default_hash(seed, p.x, p.y) <= high {
            assert(out.push(p).drop_last() =~= out);
        }
    } else {
        assert(effect_on_all(lo, pixels) =~= Seq::<Pixel>::empty());
        assert(effect_on_all(hi, pixels) =~= Seq::<Pixel>::empty());
    }
}

/// A hash display with the largest target hands every pixel on.
pub proof fn lemma_hash_full_target(seed: u64, pixels: Seq<Pixel>)
    ensures
        effect_on_all(Effect::Hash { seed, target: u64::MAX }, pixels) == pixels,
    decreases pixels.len(),
{
    if pixels.len() > 0 {
        lemma_hash_full_target(seed, pixels.drop_last());
        assert(pixels.drop_last().push(pixels.last()) =~= pixels);
        lemma_effect_on_all_push(Effect::Hash { seed, target: u64::MAX }, pixels.drop_last(), pixels.last());
    } else {
        assert(effect_on_all(Effect::Hash { seed, target: u64::MAX }, pixels) =~= pixels);
    }
}


/// The hash target of step `i` of `steps` while a picture is revealed: an
/// equal share of the hash range per step.
pub open spec fn reveal_target(steps: u64, i: u64) -> int {
    (u64::MAX / steps) * i
}

/// The hash target of step `i` (from 1) of a reveal in `steps` steps.
pub fn reveal_threshold(steps: u64, i: u64) -> (target: u64)
    requires
        1 <= i <= steps,
    ensures
        target == reveal_target(steps, i),
{
    let share = u64::MAX / steps;
    assert(share * i <= share * steps) by (nonlinear_arith)
        requires i <= steps;
    assert(share * steps <= u64::MAX) by (nonlinear_arith)
        requires share == u64::MAX / steps, steps >= 1;
    share * i
}

/// `rand::random::<u64>()`: a random number from the thread's generator;
/// nothing is stated of it, as it is random.
#[verifier::external_body]
fn random_seed() -> u64 {
    rand::random::<u64>()
}

/// A picture revealed in `steps` steps through hash displays sharing one
/// seed: step `i` keeps the pixels whose position hashes to at most
/// `reveal_target(steps, i)`.
pub struct Reveal {
    seed: u64,
    steps: u64,
}

impl Reveal {
    pub closed spec fn hash_seed(&self) -> u64 {
        self.seed
    }

    pub closed spec fn step_count(&self) -> u64 {
        self.steps
    }

    /// A reveal in `steps` steps with a random seed.
    pub fn new(steps: u64) -> (r: Self)
        ensures
            r.step_count() == steps,
    {
        Reveal { seed: random_seed(), steps }
    }

    /// A reveal in `steps` steps with the given seed.
    pub fn with_seed(seed: u64, steps: u64) -> (r: Self)
        ensures
            r.hash_seed() == seed,
            r.step_count() == steps,
    {
        Reveal { seed, steps }
    }

    pub fn seed(&self) -> (s: u64)
        ensures
            s == self.hash_seed(),
    {
        self.seed
    }

    pub fn steps(&self) -> (n: u64)
        ensures
            n == self.step_count(),
    {
        self.steps
    }

    /// The hash display of step `i` (from 1).
    pub fn step_display(&self, i: u64) -> (d: FilterMapDisplay)
        requires
            1 <= i <= self.step_count(),
        ensures
            d.effect() == (Effect::Hash { seed: self.hash_seed(), target: reveal_target(self.step_count(), i) as u64 }),
    {
        make_hash_display(self.seed, reveal_threshold(self.steps, i))
    }
}

/// During a reveal, a pixel that has appeared at one step is still there
/// at every later step: the targets only grow.
pub proof fn lemma_reveal_keeps_pixels(seed: u64, steps: u64, i: u64, j: u64, p: Pixel)
    requires
        1 <= i <= j <= steps,
    ensures
        reveal_target(steps, i) <= reveal_target(steps, j),
        effect_on(Effect::Hash { seed, target: reveal_target(steps, i) as u64 }, p) is Some ==> effect_on(
            Effect::Hash { seed, target: reveal_target(steps, j) as u64 },
            p,
        ) == Some(p),
{
    let share = u64::MAX / steps;
    assert(share * i <= share * j) by (nonlinear_arith)
        requires i <= j, share >= 0;
    assert(share * j <= share * steps) by (nonlinear_arith)
        requires j <= steps, share >= 0;
    assert(share * steps <= u64::MAX) by (nonlinear_arith)
        requires share == u64::MAX / steps, steps >= 1;
}


/// An alpha display drops a pixel exactly when it has the filtered color,
/// and hands every other pixel on unchanged.
pub proof fn lemma_alpha_drops_exactly_its_color(c: BinaryColor, p: Pixel)
    ensures
        effect_on(Effect::Alpha(c), p) is None <==> p.color == c,
        p.color != c ==> effect_on(Effect::Alpha(c), p) == Some(p),
{
}

/// What an alpha display hands on from a drawn sequence: the pixels not of
/// the filtered color, unchanged and in order.
pub proof fn lemma_alpha_display_output(c: BinaryColor, pixels: Seq<Pixel>)
    ensures
        effect_on_all(Effect::Alpha(c), pixels) == pixels.filter(|p: Pixel| p.color != c),
    decreases pixels.len(),
{
    reveal(Seq::filter);
    if pixels.len() > 0 {
        lemma_alpha_display_output(c, pixels.drop_last());
        assert(pixels.drop_last().push(pixels.last()) =~= pixels);
        lemma_effect_on_all_push(Effect::Alpha(c), pixels.drop_last(), pixels.last());
    } else {
        assert(effect_on_all(Effect::Alpha(c), pixels) =~= pixels);
    }
}

/// A color-map display keeps every pixel where it is and gives it the
/// color that the mapping assigns to its old color, for every mapping.
pub proof fn lemma_color_map_recolors(m: ColorMapping, p: Pixel)
    ensures
        effect_on(Effect::ColorMap(m), p) is Some,
        effect_on(Effect::ColorMap(m), p).unwrap().x == p.x,
        effect_on(Effect::ColorMap(m), p).unwrap().y == p.y,
        p.color == BinaryColor::Off ==> effect_on(Effect::ColorMap(m), p).unwrap().color == m.off,
        p.color == BinaryColor::On ==> effect_on(Effect::ColorMap(m), p).unwrap().color == m.on,
{
}

/// A color-map display hands on every drawn pixel, in order, each recolored
/// by the mapping and kept in place.
pub proof fn lemma_color_map_display_output(m: ColorMapping, pixels: Seq<Pixel>)
    ensures
        effect_on_all(Effect::ColorMap(m), pixels).len() == pixels.len(),
        forall|i: int|
            0 <= i < pixels.len() ==> {
                let q = #[trigger] effect_on_all(Effect::ColorMap(m), pixels)[i];
                &&& q.x == pixels[i].x
                &&& q.y == pixels[i].y
                &&& q.color == if pixels[i].color == BinaryColor::Off { m.off } else { m.on }
            },
    decreases pixels.len(),
{
    if pixels.len() > 0 {
        let rest = pixels.drop_last();
        lemma_color_map_display_output(m, rest);
        assert(rest.push(pixels.last()) =~= pixels);
        lemma_effect_on_all_push(Effect::ColorMap(m), rest, pixels.last());
        lemma_color_map_recolors(m, pixels.last());
        let out = effect_on_all(Effect::ColorMap(m), pixels);
        assert forall|i: int| 0 <= i < pixels.len() implies {
            let q = #[trigger] out[i];
            &&& q.x == pixels[i].x
            &&& q.y == pixels[i].y
            &&& q.color == if pixels[i].color == BinaryColor::Off { m.off } else { m.on }
        } by {
            if i < rest.len() {
                assert(out[i] == effect_on_all(Effect::ColorMap(m), rest)[i]);
                assert(pixels[i] == rest[i]);
            }
        }
    } else {
        assert(effect_on_all(Effect::ColorMap(m), pixels) =~= Seq::<Pixel>::empty());
    }
}

} // verus!
